//! Text as a sequence of characters, and the byte offsets that address it.
//!
//! A string is modelled by its characters (`Seq<char>`). Offsets into a document
//! are byte offsets of its UTF-8 form, so this module also relates the two: the
//! byte position of the `i`-th character is the length of the UTF-8 form of the
//! first `i` characters.

use vstd::prelude::*;
use vstd::slice::slice_subrange;
use vstd::utf8::*;

verus! {

/// `String::push` appends one character to the end of the string.
pub assume_specification[ String::push ](s: &mut String, c: char)
    ensures
        final(s)@ == old(s)@.push(c),
;

/// The text of an optional string.
pub open spec fn opt_text(s: Option<String>) -> Option<Seq<char>> {
    match s {
        Some(t) => Some(t@),
        None => None,
    }
}

/// The text of bytes that need not be valid UTF-8.
pub uninterp spec fn lossy_text(bytes: Seq<u8>) -> Seq<char>;

/// Decodes bytes with [`String::from_utf8_lossy`].
///
/// This claims that the text depends on the bytes alone, and that valid UTF-8 is decoded as
/// what it is. How invalid bytes are replaced is left unsaid.
#[verifier::external_body]
pub(crate) fn decode_lossy(bytes: &[u8]) -> (text: String)
    ensures
        text@ == lossy_text(bytes@),
        valid_utf8(bytes@) ==> text@ == decode_utf8(bytes@),
{
    String::from_utf8_lossy(bytes).into_owned()
}

/// Number of bytes that the UTF-8 form of `s` takes.
pub open spec fn byte_len(s: Seq<char>) -> nat {
    encode_utf8(s).len()
}

/// Byte offset of the `i`-th character of `s`.
pub open spec fn byte_pos(s: Seq<char>, i: int) -> nat {
    byte_len(s.take(i))
}

/// The characters found between two byte offsets of `s`.
pub open spec fn byte_slice(s: Seq<char>, start: int, end: int) -> Seq<char> {
    decode_utf8(encode_utf8(s).subrange(start, end))
}

/// Whether `offset` is a byte offset of `s` at which a character begins, or its end.
pub open spec fn on_boundary(s: Seq<char>, offset: int) -> bool {
    is_char_boundary(encode_utf8(s), offset)
}

/// Number of bytes that the UTF-8 form of `c` takes.
pub open spec fn char_width(c: char) -> nat {
    encode_scalar(c as u32).len()
}

pub proof fn lemma_char_width(c: char)
    ensures
        1 <= char_width(c) <= 4,
        char_width(c) == if (c as u32) < 0x80 {
            1nat
        } else if (c as u32) < 0x800 {
            2
        } else if (c as u32) < 0x10000 {
            3
        } else {
            4
        },
{
    char_is_scalar(c);
}

/// The UTF-8 form of a concatenation is the concatenation of the UTF-8 forms.
pub proof fn lemma_encode_concat(a: Seq<char>, b: Seq<char>)
    ensures
        encode_utf8(a + b) == encode_utf8(a) + encode_utf8(b),
    decreases a.len(),
{
    if a.len() == 0 {
        assert(a + b =~= b);
        assert(encode_utf8(a) + encode_utf8(b) =~= encode_utf8(b));
    } else {
        assert((a + b).drop_first() =~= a.drop_first() + b);
        lemma_encode_concat(a.drop_first(), b);
        assert(encode_utf8(a + b) =~= encode_utf8(a) + encode_utf8(b));
    }
}

pub proof fn lemma_byte_len_concat(a: Seq<char>, b: Seq<char>)
    ensures
        byte_len(a + b) == byte_len(a) + byte_len(b),
{
    lemma_encode_concat(a, b);
}

pub proof fn lemma_byte_len_one(c: char)
    ensures
        byte_len(seq![c]) == char_width(c),
{
    let s = seq![c];
    reveal_with_fuel(encode_utf8, 2);
    assert(s.drop_first() =~= Seq::<char>::empty());
}

/// Moving one character ahead moves the byte offset by the width of that character.
pub proof fn lemma_byte_pos_step(s: Seq<char>, i: int)
    requires
        0 <= i < s.len(),
    ensures
        byte_pos(s, i + 1) == byte_pos(s, i) + char_width(s[i]),
{
    assert(s.take(i + 1) =~= s.take(i) + seq![s[i]]);
    lemma_byte_len_concat(s.take(i), seq![s[i]]);
    lemma_byte_len_one(s[i]);
}

/// Byte offsets grow with the character position.
pub proof fn lemma_byte_pos_monotone(s: Seq<char>, i: int, j: int)
    requires
        0 <= i <= j <= s.len(),
    ensures
        byte_pos(s, i) <= byte_pos(s, j) <= byte_len(s),
        i < j ==> byte_pos(s, i) < byte_pos(s, j),
        j - i <= byte_pos(s, j) - byte_pos(s, i),
    decreases j - i,
{
    assert(s.take(j) + s.skip(j) =~= s);
    lemma_byte_len_concat(s.take(j), s.skip(j));
    if i < j {
        lemma_byte_pos_monotone(s, i, j - 1);
        lemma_byte_pos_step(s, j - 1);
        lemma_char_width(s[j - 1]);
    }
}

pub proof fn lemma_byte_pos_ends(s: Seq<char>)
    ensures
        byte_pos(s, 0) == 0,
        byte_pos(s, s.len() as int) == byte_len(s),
{
    assert(s.take(0) =~= Seq::<char>::empty());
    assert(s.take(s.len() as int) =~= s);
}

/// Two texts with the same UTF-8 form are the same text.
pub proof fn lemma_encode_injective(a: Seq<char>, b: Seq<char>)
    requires
        encode_utf8(a) == encode_utf8(b),
    ensures
        a == b,
{
    encode_utf8_decode_utf8(a);
    encode_utf8_decode_utf8(b);
}

/// Cutting a text at the byte offsets of two characters gives the characters in between.
pub proof fn lemma_byte_slice(s: Seq<char>, i: int, j: int)
    requires
        0 <= i <= j <= s.len(),
    ensures
        encode_utf8(s).subrange(byte_pos(s, i) as int, byte_pos(s, j) as int) == encode_utf8(
            s.subrange(i, j),
        ),
        byte_slice(s, byte_pos(s, i) as int, byte_pos(s, j) as int) == s.subrange(i, j),
{
    let a = s.take(i);
    let b = s.subrange(i, j);
    let c = s.skip(j);
    assert(s =~= a + b + c);
    lemma_encode_concat(a + b, c);
    lemma_encode_concat(a, b);
    assert(s.take(j) =~= a + b);
    assert(encode_utf8(s).subrange(byte_pos(s, i) as int, byte_pos(s, j) as int) =~= encode_utf8(b));
    encode_utf8_decode_utf8(b);
}

/// The byte offset of every character is a character boundary.
pub proof fn lemma_byte_pos_on_boundary(s: Seq<char>, i: int)
    requires
        0 <= i <= s.len(),
    ensures
        on_boundary(s, byte_pos(s, i) as int),
    decreases s.len(),
{
    encode_utf8_valid_utf8(s);
    lemma_byte_pos_ends(s);
    if i > 0 {
        let rest = s.drop_first();
        encode_utf8_first_scalar(s);
        lemma_byte_pos_on_boundary(rest, i - 1);
        assert(pop_first_scalar(encode_utf8(s)) =~= encode_utf8(rest));
        assert(s.take(i) =~= seq![s[0]] + rest.take(i - 1));
        lemma_byte_len_concat(seq![s[0]], rest.take(i - 1));
        lemma_byte_len_one(s[0]);
        lemma_byte_pos_monotone(s, 0, i);
    }
}

/// Every character boundary is the byte offset of some character.
pub proof fn lemma_boundary_has_position(s: Seq<char>, offset: int) -> (i: int)
    requires
        on_boundary(s, offset),
    ensures
        0 <= i <= s.len(),
        byte_pos(s, i) == offset,
    decreases s.len(),
{
    encode_utf8_valid_utf8(s);
    lemma_byte_pos_ends(s);
    if offset == 0 {
        0
    } else if s.len() == 0 {
        reveal_with_fuel(is_char_boundary, 2);
        assert(false);
        0
    } else {
        let rest = s.drop_first();
        encode_utf8_first_scalar(s);
        assert(pop_first_scalar(encode_utf8(s)) =~= encode_utf8(rest));
        let j = lemma_boundary_has_position(rest, offset - char_width(s[0]));
        assert(s.take(j + 1) =~= seq![s[0]] + rest.take(j));
        lemma_byte_len_concat(seq![s[0]], rest.take(j));
        lemma_byte_len_one(s[0]);
        j + 1
    }
}

/// The characters of a string.
pub fn to_chars(s: &str) -> (chars: Vec<char>)
    ensures
        chars@ == s@,
{
    let mut chars: Vec<char> = Vec::new();
    for c in it: s.chars()
        invariant
            it.seq() == s@,
            chars@ == s@.take(it.index() as int),
    {
        chars.push(c);
    }
    chars
}

/// The string made of the given characters.
pub fn to_text(chars: &[char]) -> (s: String)
    ensures
        s@ == chars@,
{
    let mut s = String::new();
    for i in 0..chars.len()
        invariant
            s@ == chars@.take(i as int),
    {
        s.push(chars[i]);
    }
    s
}

/// The width of a character in bytes.
pub fn width_of(c: char) -> (width: usize)
    ensures
        width == char_width(c),
{
    proof {
        lemma_char_width(c);
    }
    let code: u32 = c as u32;
    if code < 0x80 {
        1
    } else if code < 0x800 {
        2
    } else if code < 0x10000 {
        3
    } else {
        4
    }
}

/// The part of `s` between two byte offsets.
pub fn cut(s: &str, start: usize, end: usize) -> (part: &str)
    requires
        start <= end,
        on_boundary(s@, start as int),
        on_boundary(s@, end as int),
    ensures
        part@ == byte_slice(s@, start as int, end as int),
{
    let ghost i = lemma_boundary_has_position(s@, start as int);
    let ghost j = lemma_boundary_has_position(s@, end as int);
    proof {
        if j < i {
            lemma_byte_pos_monotone(s@, j, i);
        }
        lemma_byte_pos_monotone(s@, i, j);
        lemma_byte_slice(s@, 0, j);
        lemma_byte_pos_ends(s@);
        lemma_byte_pos_on_boundary(s@.subrange(0, j), i);
        assert(s@.subrange(0, j).take(i) =~= s@.take(i));
        lemma_byte_slice(s@, i, j);
    }
    let head = s.split_at(end).0;
    proof {
        lemma_encode_injective(head@, s@.subrange(0, j));
    }
    let part = head.split_at(start).1;
    proof {
        assert(encode_utf8(part@) =~= encode_utf8(s@).subrange(start as int, end as int));
        lemma_encode_injective(part@, s@.subrange(i, j));
    }
    part
}

/// Whether a character has the Unicode `White_Space` property.
pub open spec fn is_white_space(c: char) -> bool {
    let code = c as u32;
    ||| 0x09 <= code <= 0x0d
    ||| code == 0x20
    ||| code == 0x85
    ||| code == 0xa0
    ||| code == 0x1680
    ||| 0x2000 <= code <= 0x200a
    ||| code == 0x2028
    ||| code == 0x2029
    ||| code == 0x202f
    ||| code == 0x205f
    ||| code == 0x3000
}

/// Whether a character is white space.
pub fn white_space(c: char) -> (white: bool)
    ensures
        white == is_white_space(c),
{
    let code: u32 = c as u32;
    (0x09 <= code && code <= 0x0d) || code == 0x20 || code == 0x85 || code == 0xa0 || code == 0x1680
        || (0x2000 <= code && code <= 0x200a) || code == 0x2028 || code == 0x2029 || code == 0x202f
        || code == 0x205f || code == 0x3000
}

/// How many of the first characters of `s` are `c`.
pub open spec fn leading(s: Seq<char>, c: char) -> nat
    decreases s.len(),
{
    if s.len() > 0 && s[0] == c {
        1 + leading(s.drop_first(), c)
    } else {
        0
    }
}

/// How many of the last characters of `s` are `c`.
pub open spec fn trailing(s: Seq<char>, c: char) -> nat
    decreases s.len(),
{
    if s.len() > 0 && s.last() == c {
        1 + trailing(s.drop_last(), c)
    } else {
        0
    }
}

/// How many of the first characters of `s` are white space.
pub open spec fn leading_space(s: Seq<char>) -> nat
    decreases s.len(),
{
    if s.len() > 0 && is_white_space(s[0]) {
        1 + leading_space(s.drop_first())
    } else {
        0
    }
}

/// How many of the last characters of `s` are white space.
pub open spec fn trailing_space(s: Seq<char>) -> nat
    decreases s.len(),
{
    if s.len() > 0 && is_white_space(s.last()) {
        1 + trailing_space(s.drop_last())
    } else {
        0
    }
}

/// `s` without the occurrences of `c` at its end.
pub open spec fn trim_end_char(s: Seq<char>, c: char) -> Seq<char> {
    s.take(s.len() - trailing(s, c))
}

/// `s` without the occurrences of `c` at either end.
pub open spec fn trim_char(s: Seq<char>, c: char) -> Seq<char> {
    trim_end_char(s.skip(leading(s, c) as int), c)
}

/// `s` without white space at its start.
pub open spec fn trim_start(s: Seq<char>) -> Seq<char> {
    s.skip(leading_space(s) as int)
}

/// `s` without white space at either end.
pub open spec fn trim(s: Seq<char>) -> Seq<char> {
    let t = trim_start(s);
    t.take(t.len() - trailing_space(t))
}

/// Position of the first `c` at or after `from`, or the length of `s` when there is none.
pub open spec fn find_from(s: Seq<char>, c: char, from: int) -> int
    decreases s.len() - from,
{
    if from >= s.len() {
        s.len() as int
    } else if s[from] == c {
        from
    } else {
        find_from(s, c, from + 1)
    }
}

/// What characterizes the count of leading characters.
pub proof fn lemma_leading(s: Seq<char>, c: char)
    ensures
        leading(s, c) <= s.len(),
        forall|i: int| 0 <= i < leading(s, c) ==> s[i] == c,
        leading(s, c) < s.len() ==> s[leading(s, c) as int] != c,
    decreases s.len(),
{
    if s.len() > 0 && s[0] == c {
        let rest = s.drop_first();
        lemma_leading(rest, c);
        assert forall|i: int| 0 <= i < leading(s, c) implies s[i] == c by {
            if i > 0 {
                assert(rest[i - 1] == c);
            }
        }
    }
}

/// The count of leading characters is the only number with these properties.
pub proof fn lemma_leading_is(s: Seq<char>, c: char, n: int)
    requires
        0 <= n <= s.len(),
        forall|i: int| 0 <= i < n ==> s[i] == c,
        n < s.len() ==> s[n] != c,
    ensures
        leading(s, c) == n,
    decreases s.len(),
{
    if n > 0 {
        assert(s[0] == c);
        let rest = s.drop_first();
        assert forall|i: int| 0 <= i < n - 1 implies rest[i] == c by {
            assert(s[i + 1] == c);
        }
        lemma_leading_is(rest, c, n - 1);
    }
}

pub proof fn lemma_trailing(s: Seq<char>, c: char)
    ensures
        trailing(s, c) <= s.len(),
        forall|i: int| s.len() - trailing(s, c) <= i < s.len() ==> s[i] == c,
        trailing(s, c) < s.len() ==> s[s.len() - trailing(s, c) - 1] != c,
    decreases s.len(),
{
    if s.len() > 0 && s.last() == c {
        lemma_trailing(s.drop_last(), c);
        let rest = s.drop_last();
        assert forall|i: int| s.len() - trailing(s, c) <= i < s.len() implies s[i] == c by {
            if i < s.len() - 1 {
                assert(rest[i] == c);
            }
        }
    }
}

pub proof fn lemma_trailing_is(s: Seq<char>, c: char, n: int)
    requires
        0 <= n <= s.len(),
        forall|i: int| s.len() - n <= i < s.len() ==> s[i] == c,
        n < s.len() ==> s[s.len() - n - 1] != c,
    ensures
        trailing(s, c) == n,
    decreases s.len(),
{
    if n > 0 {
        assert(s[s.len() - 1] == c);
        lemma_trailing_is(s.drop_last(), c, n - 1);
    }
}

pub proof fn lemma_leading_space(s: Seq<char>)
    ensures
        leading_space(s) <= s.len(),
        forall|i: int| 0 <= i < leading_space(s) ==> is_white_space(s[i]),
        leading_space(s) < s.len() ==> !is_white_space(s[leading_space(s) as int]),
    decreases s.len(),
{
    if s.len() > 0 && is_white_space(s[0]) {
        let rest = s.drop_first();
        lemma_leading_space(rest);
        assert forall|i: int| 0 <= i < leading_space(s) implies is_white_space(s[i]) by {
            if i > 0 {
                assert(is_white_space(rest[i - 1]));
            }
        }
    }
}

pub proof fn lemma_leading_space_is(s: Seq<char>, n: int)
    requires
        0 <= n <= s.len(),
        forall|i: int| 0 <= i < n ==> is_white_space(s[i]),
        n < s.len() ==> !is_white_space(s[n]),
    ensures
        leading_space(s) == n,
    decreases s.len(),
{
    if n > 0 {
        assert(is_white_space(s[0]));
        let rest = s.drop_first();
        assert forall|i: int| 0 <= i < n - 1 implies is_white_space(rest[i]) by {
            assert(is_white_space(s[i + 1]));
        }
        lemma_leading_space_is(rest, n - 1);
    }
}

pub proof fn lemma_trailing_space(s: Seq<char>)
    ensures
        trailing_space(s) <= s.len(),
        forall|i: int| s.len() - trailing_space(s) <= i < s.len() ==> is_white_space(s[i]),
        trailing_space(s) < s.len() ==> !is_white_space(s[s.len() - trailing_space(s) - 1]),
    decreases s.len(),
{
    if s.len() > 0 && is_white_space(s.last()) {
        let rest = s.drop_last();
        lemma_trailing_space(rest);
        assert forall|i: int| s.len() - trailing_space(s) <= i < s.len() implies is_white_space(
            s[i],
        ) by {
            if i < s.len() - 1 {
                assert(is_white_space(rest[i]));
            }
        }
    }
}

pub proof fn lemma_trailing_space_is(s: Seq<char>, n: int)
    requires
        0 <= n <= s.len(),
        forall|i: int| s.len() - n <= i < s.len() ==> is_white_space(s[i]),
        n < s.len() ==> !is_white_space(s[s.len() - n - 1]),
    ensures
        trailing_space(s) == n,
    decreases s.len(),
{
    if n > 0 {
        assert(is_white_space(s[s.len() - 1]));
        lemma_trailing_space_is(s.drop_last(), n - 1);
    }
}

/// What characterizes the position of the first occurrence.
pub proof fn lemma_find_from(s: Seq<char>, c: char, from: int)
    requires
        0 <= from <= s.len(),
    ensures
        from <= find_from(s, c, from) <= s.len(),
        forall|i: int| from <= i < find_from(s, c, from) ==> s[i] != c,
        find_from(s, c, from) < s.len() ==> s[find_from(s, c, from)] == c,
    decreases s.len() - from,
{
    if from < s.len() && s[from] != c {
        lemma_find_from(s, c, from + 1);
    }
}

pub proof fn lemma_find_from_is(s: Seq<char>, c: char, from: int, at: int)
    requires
        0 <= from <= at <= s.len(),
        forall|i: int| from <= i < at ==> s[i] != c,
        at < s.len() ==> s[at] == c,
    ensures
        find_from(s, c, from) == at,
    decreases s.len() - from,
{
    if from < at {
        assert(s[from] != c);
        lemma_find_from_is(s, c, from + 1, at);
    }
}

/// Counts the leading occurrences of `c`.
pub fn count_leading(s: &[char], c: char) -> (n: usize)
    ensures
        n == leading(s@, c),
        n <= s@.len(),
{
    let mut n: usize = 0;
    while n < s.len() && s[n] == c
        invariant
            n <= s@.len(),
            forall|i: int| 0 <= i < n ==> s@[i] == c,
        decreases s@.len() - n,
    {
        n += 1;
    }
    proof {
        lemma_leading_is(s@, c, n as int);
    }
    n
}

/// The part of `s` from position `from` on.
pub fn from_position(s: &[char], from: usize) -> (rest: &[char])
    requires
        from <= s@.len(),
    ensures
        rest@ == s@.skip(from as int),
{
    let rest = slice_subrange(s, from, s.len());
    assert(rest@ =~= s@.skip(from as int));
    rest
}

/// The part of `s` before position `to`.
pub fn up_to_position(s: &[char], to: usize) -> (head: &[char])
    requires
        to <= s@.len(),
    ensures
        head@ == s@.take(to as int),
{
    let head = slice_subrange(s, 0, to);
    assert(head@ =~= s@.take(to as int));
    head
}

/// `s` without the occurrences of `c` at its end.
pub fn without_trailing(s: &[char], c: char) -> (head: &[char])
    ensures
        head@ == trim_end_char(s@, c),
{
    let mut to: usize = s.len();
    while to > 0 && s[to - 1] == c
        invariant
            to <= s@.len(),
            forall|i: int| to <= i < s@.len() ==> s@[i] == c,
        decreases to,
    {
        to -= 1;
    }
    proof {
        lemma_trailing_is(s@, c, s@.len() - to);
    }
    up_to_position(s, to)
}

/// `s` without the occurrences of `c` at either end.
pub fn without_surrounding(s: &[char], c: char) -> (part: &[char])
    ensures
        part@ == trim_char(s@, c),
{
    let n = count_leading(s, c);
    without_trailing(from_position(s, n), c)
}

/// `s` without white space at its start.
pub fn without_leading_space(s: &[char]) -> (rest: &[char])
    ensures
        rest@ == trim_start(s@),
{
    let mut n: usize = 0;
    while n < s.len() && white_space(s[n])
        invariant
            n <= s@.len(),
            forall|i: int| 0 <= i < n ==> is_white_space(s@[i]),
        decreases s@.len() - n,
    {
        n += 1;
    }
    proof {
        lemma_leading_space_is(s@, n as int);
    }
    from_position(s, n)
}

/// `s` without white space at either end.
pub fn trimmed(s: &[char]) -> (part: &[char])
    ensures
        part@ == trim(s@),
{
    let t = without_leading_space(s);
    let mut to: usize = t.len();
    while to > 0 && white_space(t[to - 1])
        invariant
            to <= t@.len(),
            forall|i: int| to <= i < t@.len() ==> is_white_space(t@[i]),
        decreases to,
    {
        to -= 1;
    }
    proof {
        lemma_trailing_space_is(t@, t@.len() - to);
    }
    up_to_position(t, to)
}

/// Position of the first `c` at or after `from`, or the length when there is none.
pub fn find_char(s: &[char], c: char, from: usize) -> (at: usize)
    requires
        from <= s@.len(),
    ensures
        at == find_from(s@, c, from as int),
        from <= at <= s@.len(),
        at < s@.len() ==> s@[at as int] == c,
{
    let mut at: usize = from;
    while at < s.len() && s[at] != c
        invariant
            from <= at <= s@.len(),
            forall|i: int| from <= i < at ==> s@[i] != c,
        decreases s@.len() - at,
    {
        at += 1;
    }
    proof {
        lemma_find_from_is(s@, c, from as int, at as int);
    }
    at
}

/// Whether `s` begins with `prefix`.
pub open spec fn begins_with(s: Seq<char>, prefix: Seq<char>) -> bool {
    prefix.len() <= s.len() && s.take(prefix.len() as int) == prefix
}

/// Whether `s` ends with `suffix`.
pub open spec fn finishes_with(s: Seq<char>, suffix: Seq<char>) -> bool {
    suffix.len() <= s.len() && s.skip(s.len() - suffix.len()) == suffix
}

/// Whether `pattern` is found in `s` at position `at`.
pub open spec fn occurs_at(s: Seq<char>, pattern: Seq<char>, at: int) -> bool {
    0 <= at && at + pattern.len() <= s.len() && s.subrange(at, at + pattern.len()) == pattern
}

/// Whether two texts are the same.
pub fn same(a: &[char], b: &[char]) -> (equal: bool)
    ensures
        equal == (a@ == b@),
{
    if a.len() != b.len() {
        return false;
    }
    for i in 0..a.len()
        invariant
            a@.len() == b@.len(),
            a@.take(i as int) == b@.take(i as int),
    {
        if a[i] != b[i] {
            return false;
        }
        assert(a@.take(i + 1) =~= a@.take(i as int).push(a@[i as int]));
        assert(b@.take(i + 1) =~= b@.take(i as int).push(b@[i as int]));
    }
    assert(a@.take(a@.len() as int) =~= a@);
    assert(b@.take(b@.len() as int) =~= b@);
    true
}

/// Whether `pattern` is found in `s` at position `at`.
pub fn found_at(s: &[char], pattern: &[char], at: usize) -> (found: bool)
    ensures
        found == occurs_at(s@, pattern@, at as int),
{
    if at > s.len() || pattern.len() > s.len() - at {
        return false;
    }
    same(slice_subrange(s, at, at + pattern.len()), pattern)
}

/// Whether `s` begins with the literal `prefix`.
pub fn has_prefix(s: &[char], prefix: &str) -> (found: bool)
    ensures
        found == begins_with(s@, prefix@),
{
    let p = to_chars(prefix);
    if p.len() > s.len() {
        return false;
    }
    same(up_to_position(s, p.len()), p.as_slice())
}

/// Whether `s` is the literal `other`.
pub fn is_text(s: &[char], other: &str) -> (equal: bool)
    ensures
        equal == (s@ == other@),
{
    let o = to_chars(other);
    same(s, o.as_slice())
}

/// `s` without one `c` at its end.
pub open spec fn strip_end(s: Seq<char>, c: char) -> Seq<char> {
    if s.len() > 0 && s.last() == c {
        s.drop_last()
    } else {
        s
    }
}

/// The lines of a text in the sense of plain output: each ends at a line feed, a carriage
/// return before that line feed is not part of the line, and the last line feed is optional.
pub open spec fn text_lines(s: Seq<char>) -> Seq<Seq<char>>
    decreases s.len(),
{
    let at = find_from(s, '\n', 0);
    if s.len() == 0 {
        Seq::empty()
    } else if 0 <= at < s.len() {
        seq![strip_end(s.take(at), '\r')] + text_lines(s.skip(at + 1))
    } else {
        seq![s]
    }
}

/// `parts` one after the other, with `sep` between them.
pub open spec fn join(parts: Seq<Seq<char>>, sep: Seq<char>) -> Seq<char>
    decreases parts.len(),
{
    if parts.len() == 0 {
        Seq::empty()
    } else if parts.len() == 1 {
        parts[0]
    } else {
        join(parts.drop_last(), sep) + sep + parts.last()
    }
}

/// The contents of a list of slices.
pub open spec fn slice_texts(parts: Seq<&[char]>) -> Seq<Seq<char>> {
    parts.map_values(|p: &[char]| p@)
}

/// Splits a text into the lines of plain output.
pub fn output_lines<'a>(s: &'a [char]) -> (lines: Vec<&'a [char]>)
    ensures
        slice_texts(lines@) == text_lines(s@),
{
    let mut lines: Vec<&'a [char]> = Vec::new();
    let mut from: usize = 0;
    assert(s@.skip(0) =~= s@);
    assert(slice_texts(lines@) =~= Seq::empty());
    while from < s.len()
        invariant
            from <= s@.len(),
            slice_texts(lines@) + text_lines(s@.skip(from as int)) =~= text_lines(s@),
        decreases s@.len() - from,
    {
        let rest = from_position(s, from);
        let at = find_char(rest, '\n', 0);
        let ghost before = lines@;
        if at < rest.len() {
            let mut to: usize = at;
            if to > 0 && rest[to - 1] == '\r' {
                to -= 1;
            }
            let line = up_to_position(rest, to);
            assert(line@ =~= strip_end(rest@.take(at as int), '\r'));
            lines.push(line);
            assert(slice_texts(lines@) =~= slice_texts(before).push(line@));
            assert(rest@.skip(at + 1) =~= s@.skip(from + at + 1));
            from = from + at + 1;
        } else {
            lines.push(rest);
            assert(slice_texts(lines@) =~= slice_texts(before).push(rest@));
            from = s.len();
            assert(s@.skip(from as int) =~= Seq::empty());
        }
    }
    assert(s@.skip(from as int) =~= Seq::empty());
    lines
}

/// The contents of a list of strings.
pub open spec fn str_texts(parts: Seq<&str>) -> Seq<Seq<char>> {
    parts.map_values(|p: &str| p@)
}

/// Splits a string into the lines of plain output.
pub fn str_lines<'a>(s: &'a str) -> (lines: Vec<&'a str>)
    ensures
        str_texts(lines@) == text_lines(s@),
{
    let chars = to_chars(s);
    let total = s.as_bytes().len();
    let mut lines: Vec<&'a str> = Vec::new();
    let mut from: usize = 0;
    let mut from_byte: usize = 0;
    proof {
        assert(s@.skip(0) =~= s@);
        assert(str_texts(lines@) =~= Seq::empty());
        lemma_byte_pos_ends(s@);
    }
    while from < chars.len()
        invariant
            chars@ == s@,
            total == byte_len(s@),
            from <= s@.len(),
            from_byte == byte_pos(s@, from as int),
            str_texts(lines@) + text_lines(s@.skip(from as int)) =~= text_lines(s@),
        decreases s@.len() - from,
    {
        let ghost rest = s@.skip(from as int);
        let mut at: usize = from;
        let mut at_byte: usize = from_byte;
        while at < chars.len() && chars[at] != '\n'
            invariant
                chars@ == s@,
                total == byte_len(s@),
                from <= at <= s@.len(),
                at_byte == byte_pos(s@, at as int),
                forall|i: int| from <= i < at ==> s@[i] != '\n',
            decreases s@.len() - at,
        {
            proof {
                lemma_byte_pos_step(s@, at as int);
                lemma_byte_pos_monotone(s@, at + 1, s@.len() as int);
            }
            at_byte += width_of(chars[at]);
            at += 1;
        }
        proof {
            lemma_find_from_is(rest, '\n', 0, at - from);
            lemma_byte_pos_on_boundary(s@, from as int);
        }
        let mut end: usize = at;
        let mut end_byte: usize = at_byte;
        if at < chars.len() && at > from && chars[at - 1] == '\r' {
            proof {
                lemma_byte_pos_step(s@, at - 1);
                lemma_char_width('\r');
                lemma_byte_pos_monotone(s@, from as int, at - 1);
            }
            end -= 1;
            end_byte -= 1;
        }
        proof {
            lemma_byte_pos_on_boundary(s@, end as int);
            lemma_byte_pos_monotone(s@, from as int, end as int);
            lemma_byte_slice(s@, from as int, end as int);
        }
        let line = cut(s, from_byte, end_byte);
        let ghost before = lines@;
        lines.push(line);
        proof {
            assert(str_texts(lines@) =~= str_texts(before).push(line@));
        }
        if at < chars.len() {
            proof {
                lemma_byte_pos_step(s@, at as int);
                lemma_char_width('\n');
                lemma_byte_pos_monotone(s@, at + 1, s@.len() as int);
                assert(line@ =~= strip_end(rest.take(at - from), '\r'));
                assert(rest.skip(at - from + 1) =~= s@.skip(at + 1));
            }
            from = at + 1;
            from_byte = at_byte + 1;
        } else {
            proof {
                assert(line@ =~= rest);
                assert(s@.skip(at as int) =~= Seq::empty());
            }
            from = at;
            from_byte = at_byte;
        }
    }
    assert(s@.skip(from as int) =~= Seq::empty());
    lines
}

/// Lines with a line feed after each of them.
pub open spec fn ended(lines: Seq<Seq<char>>) -> Seq<char> {
    lines.map_values(|line: Seq<char>| line.push('\n')).flatten()
}

/// Lines with a line feed after each of them, one line after the other.
pub proof fn lemma_ended_first(lines: Seq<Seq<char>>)
    requires
        lines.len() > 0,
    ensures
        ended(lines) == lines[0] + seq!['\n'] + ended(lines.drop_first()),
{
    let all = lines.map_values(|line: Seq<char>| line.push('\n'));
    assert(all.drop_first() =~= lines.drop_first().map_values(
        |line: Seq<char>| line.push('\n'),
    ));
    assert(all.first() =~= lines[0] + seq!['\n']);
    assert(all.flatten() =~= all.first() + all.drop_first().flatten());
}

pub proof fn lemma_ended_last(lines: Seq<Seq<char>>)
    requires
        lines.len() > 0,
    ensures
        ended(lines) == ended(lines.drop_last()) + lines.last() + seq!['\n'],
    decreases lines.len(),
{
    lemma_ended_first(lines);
    if lines.len() == 1 {
        assert(lines.drop_first() =~= Seq::empty());
        assert(lines.drop_last() =~= Seq::empty());
        assert(ended(Seq::empty()) =~= Seq::empty()) by {
            let none = Seq::<Seq<char>>::empty().map_values(|line: Seq<char>| line.push('\n'));
            assert(none.len() == 0);
            assert(none.flatten() =~= Seq::empty());
        }
        assert(ended(lines) =~= ended(lines.drop_last()) + lines.last() + seq!['\n']);
    } else {
        let rest = lines.drop_first();
        lemma_ended_last(rest);
        assert(rest.drop_last() =~= lines.drop_last().drop_first());
        lemma_ended_first(lines.drop_last());
        assert(lines.drop_last()[0] == lines[0]);
        assert(ended(lines) =~= ended(lines.drop_last()) + lines.last() + seq!['\n']);
    }
}

/// Lines that are joined with line feeds are those lines with a line feed after each of them,
/// but for the last one.
pub proof fn law_joined_lines(lines: Seq<Seq<char>>)
    requires
        lines.len() > 0,
    ensures
        join(lines, seq!['\n']) + seq!['\n'] == ended(lines),
    decreases lines.len(),
{
    lemma_ended_last(lines);
    if lines.len() == 1 {
        assert(lines.drop_last() =~= Seq::empty());
        let none = Seq::<Seq<char>>::empty().map_values(|line: Seq<char>| line.push('\n'));
        assert(none.len() == 0);
        assert(none.flatten() =~= Seq::empty());
        assert(ended(lines) =~= lines[0] + seq!['\n']);
    } else {
        law_joined_lines(lines.drop_last());
        assert(join(lines, seq!['\n']) + seq!['\n'] =~= ended(lines));
    }
}

/// The first line of a text, and the lines after it.
pub proof fn law_first_line_is_read(line: Seq<char>, rest: Seq<char>)
    requires
        !line.contains('\n'),
    ensures
        text_lines(line + seq!['\n'] + rest) == seq![strip_end(line, '\r')] + text_lines(rest),
{
    let s = line + seq!['\n'] + rest;
    let n = line.len() as int;
    assert forall|i: int| 0 <= i < n implies s[i] != '\n' by {
        assert(s[i] == line[i]);
        assert(line.contains(line[i]));
    }
    lemma_find_from_is(s, '\n', 0, n);
    assert(s.take(n) =~= line);
    assert(s.skip(n + 1) =~= rest);
}

/// No line of a text holds a line feed; and when it holds no carriage returns, its lines with a
/// line feed after each of them are the text, with a line feed at its end if it has none.
pub proof fn law_lines_make_up_the_text(s: Seq<char>)
    ensures
        forall|i: int| 0 <= i < text_lines(s).len() ==> !(#[trigger] text_lines(s)[i]).contains('\n'),
        !s.contains('\r') ==> ended(text_lines(s)) == (if s.len() == 0 || s.last() == '\n' {
            s
        } else {
            s.push('\n')
        }),
        s.len() > 0 ==> text_lines(s).len() > 0,
    decreases s.len(),
{
    let at = find_from(s, '\n', 0);
    lemma_find_from(s, '\n', 0);
    if s.len() == 0 {
        let none = Seq::<Seq<char>>::empty().map_values(|line: Seq<char>| line.push('\n'));
        assert(none.len() == 0);
        assert(none.flatten() =~= Seq::empty());
        assert(ended(text_lines(s)) =~= s);
    } else if at < s.len() {
        let rest = s.skip(at + 1);
        let first = strip_end(s.take(at), '\r');
        law_lines_make_up_the_text(rest);
        let all = text_lines(s);
        assert(all =~= seq![first] + text_lines(rest));
        assert forall|i: int| 0 <= i < all.len() implies !(#[trigger] all[i]).contains('\n') by {
            if i == 0 {
                if first.contains('\n') {
                    let j = choose|j: int| 0 <= j < first.len() && first[j] == '\n';
                    assert(s[j] == '\n');
                }
            } else {
                assert(all[i] == text_lines(rest)[i - 1]);
            }
        }
        if !s.contains('\r') {
            assert(!rest.contains('\r')) by {
                if rest.contains('\r') {
                    let j = choose|j: int| 0 <= j < rest.len() && rest[j] == '\r';
                    assert(s[at + 1 + j] == '\r');
                }
            }
            assert(first == s.take(at)) by {
                if at > 0 {
                    assert(s.take(at).last() == s[at - 1]);
                    assert(s.contains(s[at - 1]));
                }
            }
            lemma_ended_first(all);
            assert(all.drop_first() =~= text_lines(rest));
            if rest.len() > 0 {
                assert(rest.last() == s.last());
            }
            assert(ended(all) =~= if s.last() == '\n' {
                s
            } else {
                s.push('\n')
            });
        }
    } else {
        let all = text_lines(s);
        assert(all =~= seq![s]);
        assert(!s.contains('\n'));
        assert(s.last() != '\n');
        lemma_ended_first(all);
        assert(all.drop_first() =~= Seq::empty());
        let none = Seq::<Seq<char>>::empty().map_values(|line: Seq<char>| line.push('\n'));
        assert(none.len() == 0);
        assert(none.flatten() =~= Seq::empty());
        assert(ended(all) =~= s.push('\n'));
    }
}

/// Lines that are written with a line feed after each of them are read back, whether or not the
/// last line feed is there; it must be there after an empty line. A carriage return at the end of a
/// line would be taken for a part of its line break.
pub proof fn law_lines_read_back(lines: Seq<Seq<char>>)
    requires
        forall|i: int|
            0 <= i < lines.len() ==> !(#[trigger] lines[i]).contains('\n') && (lines[i].len() > 0
                ==> lines[i].last() != '\r'),
    ensures
        text_lines(ended(lines)) == lines,
        lines.len() > 0 && lines.last().len() > 0 ==> text_lines(join(lines, seq!['\n'])) == lines,
    decreases lines.len(),
{
    if lines.len() == 0 {
        let none = Seq::<Seq<char>>::empty().map_values(|line: Seq<char>| line.push('\n'));
        assert(none.len() == 0);
        assert(none.flatten() =~= Seq::empty());
        assert(lines =~= Seq::empty());
        assert(ended(lines) =~= Seq::empty());
        assert(text_lines(ended(lines)) =~= lines);
    } else {
        let rest = lines.drop_first();
        assert forall|i: int| 0 <= i < rest.len() implies !(#[trigger] rest[i]).contains('\n') && (
        rest[i].len() > 0 ==> rest[i].last() != '\r') by {
            assert(rest[i] == lines[i + 1]);
        }
        law_lines_read_back(rest);
        lemma_ended_first(lines);
        assert(!lines[0].contains('\n'));
        law_first_line_is_read(lines[0], ended(rest));
        assert(strip_end(lines[0], '\r') == lines[0]);
        assert(text_lines(ended(lines)) =~= lines);
        if lines.last().len() > 0 {
            law_joined_lines(lines);
            let joined = join(lines, seq!['\n']);
            if rest.len() == 0 {
                assert(joined == lines[0]);
                assert(lines =~= seq![lines[0]]);
                law_lines_of_one(lines[0]);
            } else {
                law_joined_lines(rest);
                assert(rest.last() == lines.last());
                let tail = join(rest, seq!['\n']);
                assert(joined.push('\n') =~= joined + seq!['\n']);
                assert(tail.push('\n') =~= tail + seq!['\n']);
                assert(joined.push('\n') == lines[0] + seq!['\n'] + tail.push('\n'));
                assert(joined =~= joined.push('\n').drop_last());
                assert((lines[0] + seq!['\n'] + tail.push('\n')).drop_last() =~= lines[0]
                    + seq!['\n'] + tail);
                assert(joined == lines[0] + seq!['\n'] + tail);
                law_first_line_is_read(lines[0], tail);
                assert(text_lines(joined) =~= lines);
            }
        }
    }
}

/// A text without line feeds is one line.
pub proof fn law_lines_of_one(line: Seq<char>)
    requires
        line.len() > 0,
        !line.contains('\n'),
    ensures
        text_lines(line) == seq![line],
{
    lemma_find_from(line, '\n', 0);
    if find_from(line, '\n', 0) < line.len() {
        assert(line.contains(line[find_from(line, '\n', 0)]));
    }
}

/// Trimming takes away white space at both ends, all of it, and nothing else.
pub proof fn law_trimmed(s: Seq<char>) -> (ends: (Seq<char>, Seq<char>))
    ensures
        s == ends.0 + trim(s) + ends.1,
        forall|i: int| 0 <= i < ends.0.len() ==> is_white_space(#[trigger] ends.0[i]),
        forall|i: int| 0 <= i < ends.1.len() ==> is_white_space(#[trigger] ends.1[i]),
        trim(s).len() > 0 ==> !is_white_space(trim(s)[0]) && !is_white_space(trim(s).last()),
{
    lemma_leading_space(s);
    let n = leading_space(s) as int;
    let t = trim_start(s);
    lemma_trailing_space(t);
    let m = trailing_space(t) as int;
    let a = s.take(n);
    let b = t.skip(t.len() - m);
    assert(s =~= a + trim(s) + b);
    assert forall|i: int| 0 <= i < b.len() implies is_white_space(#[trigger] b[i]) by {
        assert(b[i] == t[t.len() - m + i]);
    }
    assert forall|i: int| 0 <= i < a.len() implies is_white_space(#[trigger] a[i]) by {
        assert(a[i] == s[i]);
    }
    if trim(s).len() > 0 {
        assert(trim(s)[0] == t[0]);
        assert(t[0] == s[n]);
        assert(trim(s).last() == t[t.len() - m - 1]);
    }
    (a, b)
}

/// Taking a character away at the end takes away all of it, and nothing else.
pub proof fn law_end_taken_away(s: Seq<char>, c: char) -> (n: nat)
    ensures
        s == trim_end_char(s, c) + Seq::new(n, |i: int| c),
        trim_end_char(s, c).len() > 0 ==> trim_end_char(s, c).last() != c,
{
    lemma_trailing(s, c);
    let n = trailing(s, c);
    assert forall|i: int| s.len() - n <= i < s.len() implies s[i] == c by {}
    assert(s =~= trim_end_char(s, c) + Seq::new(n, |i: int| c));
    if trim_end_char(s, c).len() > 0 {
        assert(trim_end_char(s, c).last() == s[s.len() - n - 1]);
    }
    n
}

/// Quotes around a text without quotes are taken away, and nothing else is.
pub proof fn lemma_trimmed_quotes(s: Seq<char>)
    requires
        !s.contains('"'),
    ensures
        trim_char(s, '"') == s,
        trim_char(seq!['"'] + s + seq!['"'], '"') == s,
{
    assert forall|i: int| 0 <= i < s.len() implies s[i] != '"' by {
        assert(s.contains(s[i]));
    }
    lemma_leading_is(s, '"', 0);
    assert(s.skip(0) =~= s);
    lemma_trailing_is(s, '"', 0);
    assert(s.take(s.len() as int) =~= s);
    let q = seq!['"'] + s + seq!['"'];
    if s.len() == 0 {
        lemma_leading_is(q, '"', 2);
        assert(q.skip(2) =~= s);
    } else {
        assert(q[1] == s[0]);
        lemma_leading_is(q, '"', 1);
        let t = s + seq!['"'];
        assert(q.skip(1) =~= t);
        assert(t[t.len() - 2] == s.last());
        lemma_trailing_is(t, '"', 1);
        assert(t.take(t.len() - 1) =~= s);
    }
}

/// What separates words: spaces, tabs and line breaks, and the spaces of other scripts; no letter,
/// digit or sign does.
pub proof fn law_white_space(c: char)
    ensures
        c == ' ' || c == '\t' || c == '\n' || c == '\r' || c == '\u{3000}' || c == '\u{a0}'
            ==> is_white_space(c),
        '!' <= c <= '~' ==> !is_white_space(c),
        '\u{3041}' <= c <= '\u{ffff}' ==> !is_white_space(c),
{
}

/// Taking a character away at both ends takes away all of it there, and nothing else.
pub proof fn law_both_ends_taken_away(s: Seq<char>, c: char) -> (ends: (nat, nat))
    ensures
        s == Seq::new(ends.0, |i: int| c) + trim_char(s, c) + Seq::new(ends.1, |i: int| c),
        trim_char(s, c).len() > 0 ==> trim_char(s, c)[0] != c && trim_char(s, c).last() != c,
{
    lemma_leading(s, c);
    let n = leading(s, c);
    let t = s.skip(n as int);
    let m = law_end_taken_away(t, c);
    assert(s.take(n as int) =~= Seq::new(n, |i: int| c));
    assert(s =~= s.take(n as int) + t);
    assert(s =~= Seq::new(n, |i: int| c) + trim_char(s, c) + Seq::new(m, |i: int| c));
    if trim_char(s, c).len() > 0 {
        assert(trim_char(s, c)[0] == t[0]);
        assert(t[0] == s[n as int]);
    }
    (n, m)
}

/// One character is taken away at the end, if it is there, and no more than one.
pub proof fn law_one_is_taken_away(s: Seq<char>, c: char)
    ensures
        strip_end(s.push(c), c) == s,
        s.len() == 0 || s.last() != c ==> strip_end(s, c) == s,
{
    assert(s.push(c).drop_last() =~= s);
}

} // verus!
