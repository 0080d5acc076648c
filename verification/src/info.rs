//! The info string of a fence: which language it names, and where its result goes.

use vstd::prelude::*;

use crate::text;

verus! {

/// What the info string of a shell fence says.
pub struct ShellInfoModel {
    /// The language, as it is written.
    pub lang: Seq<char>,
    /// The file designated for the result.
    pub out: Option<Seq<char>>,
}

/// What the info string of a shell fence says.
pub struct ShellInfo {
    /// The language, as it is written.
    pub lang: String,
    /// The file designated for the result.
    pub out: Option<String>,
}

impl View for ShellInfo {
    type V = ShellInfoModel;

    open spec fn view(&self) -> ShellInfoModel {
        ShellInfoModel { lang: self.lang@, out: text::opt_text(self.out) }
    }
}

/// The lower case form of an ASCII letter; any other character is left alone.
pub open spec fn ascii_lower(c: char) -> char {
    if 'A' <= c <= 'Z' {
        ((c as u8) + 32) as char
    } else {
        c
    }
}

/// `s` with its ASCII letters in lower case.
pub open spec fn lower(s: Seq<char>) -> Seq<char> {
    s.map_values(|c: char| ascii_lower(c))
}

/// The tokens of an info string, given the token begun so far and whether a quotation is
/// open. White space separates tokens, except between double quotes; the quotes stay.
pub open spec fn tokens_from(info: Seq<char>, current: Seq<char>, quoted: bool) -> Seq<Seq<char>>
    decreases info.len(),
{
    if info.len() == 0 {
        if current.len() == 0 {
            Seq::empty()
        } else {
            seq![current]
        }
    } else if info[0] == '"' {
        tokens_from(info.drop_first(), current.push('"'), !quoted)
    } else if text::is_white_space(info[0]) && !quoted {
        if current.len() == 0 {
            tokens_from(info.drop_first(), current, quoted)
        } else {
            seq![current] + tokens_from(info.drop_first(), Seq::empty(), quoted)
        }
    } else {
        tokens_from(info.drop_first(), current.push(info[0]), quoted)
    }
}

/// The tokens of an info string.
pub open spec fn tokens(info: Seq<char>) -> Seq<Seq<char>> {
    tokens_from(info, Seq::empty(), false)
}

/// Whether `lang` names a shell.
pub open spec fn is_shell(lang: Seq<char>) -> bool {
    let l = lower(lang);
    l == "shell"@ || l == "sh"@ || l == "bash"@ || l == "zsh"@
}

/// The file that a token designates, when it has the form `out=path` (or `file=`, `result=`).
pub open spec fn designation(token: Seq<char>) -> Option<Seq<char>> {
    let at = text::find_from(token, '=', 0);
    let key = token.take(at);
    if at < token.len() && (key == "out"@ || key == "file"@ || key == "result"@) {
        Some(text::trim_char(token.skip(at + 1), '"'))
    } else {
        None
    }
}

/// The file that the last designating token designates.
pub open spec fn last_designation(tokens: Seq<Seq<char>>) -> Option<Seq<char>>
    decreases tokens.len(),
{
    if tokens.len() == 0 {
        None
    } else if designation(tokens.last()) is Some {
        designation(tokens.last())
    } else {
        last_designation(tokens.drop_last())
    }
}

/// What an info string says, when it names a shell.
pub open spec fn shell_info(info: Seq<char>) -> Option<ShellInfoModel> {
    let t = tokens(info);
    if t.len() > 0 && is_shell(t[0]) {
        Some(ShellInfoModel { lang: t[0], out: last_designation(t.drop_first()) })
    } else {
        None
    }
}

/// The lower case form of an ASCII letter.
fn lowered_char(c: char) -> (l: char)
    ensures
        l == ascii_lower(c),
{
    if 'A' <= c && c <= 'Z' {
        ((c as u8) + 32) as char
    } else {
        c
    }
}

/// `s` with its ASCII letters in lower case.
pub fn lowered(s: &[char]) -> (l: Vec<char>)
    ensures
        l@ == lower(s@),
{
    let mut l: Vec<char> = Vec::new();
    for i in 0..s.len()
        invariant
            l@ == lower(s@.take(i as int)),
    {
        l.push(lowered_char(s[i]));
        assert(l@ =~= lower(s@.take(i + 1)));
    }
    assert(s@.take(s@.len() as int) =~= s@);
    l
}

/// The texts of a list of tokens.
pub open spec fn token_texts(tokens: Seq<Vec<char>>) -> Seq<Seq<char>> {
    tokens.map_values(|t: Vec<char>| t@)
}

/// Splits an info string into tokens.
pub fn tokenize_info(info: &[char]) -> (tokens: Vec<Vec<char>>)
    ensures
        token_texts(tokens@) == self::tokens(info@),
{
    let mut tokens: Vec<Vec<char>> = Vec::new();
    let mut current: Vec<char> = Vec::new();
    let mut quoted: bool = false;
    assert(info@.skip(0) =~= info@);
    assert(token_texts(tokens@) =~= Seq::empty());
    for i in 0..info.len()
        invariant
            token_texts(tokens@) + tokens_from(info@.skip(i as int), current@, quoted)
                =~= self::tokens(info@),
    {
        let c = info[i];
        assert(info@.skip(i as int).drop_first() =~= info@.skip(i + 1));
        if c == '"' {
            quoted = !quoted;
            current.push(c);
        } else if text::white_space(c) && !quoted {
            if current.len() > 0 {
                let ghost before = tokens@;
                let ghost token = current@;
                tokens.push(current);
                current = Vec::new();
                assert(token_texts(tokens@) =~= token_texts(before).push(token));
                assert(current@ =~= Seq::empty());
            }
        } else {
            current.push(c);
        }
    }
    assert(info@.skip(info@.len() as int) =~= Seq::empty());
    if current.len() > 0 {
        let ghost before = tokens@;
        let ghost token = current@;
        tokens.push(current);
        assert(token_texts(tokens@) =~= token_texts(before).push(token));
    }
    tokens
}

/// Whether `lang` names a shell.
fn names_shell(lang: &[char]) -> (shell: bool)
    ensures
        shell == is_shell(lang@),
{
    let l = lowered(lang);
    text::is_text(l.as_slice(), "shell") || text::is_text(l.as_slice(), "sh") || text::is_text(
        l.as_slice(),
        "bash",
    ) || text::is_text(l.as_slice(), "zsh")
}

/// The file that a token designates.
fn designated_by(token: &[char]) -> (out: Option<String>)
    ensures
        text::opt_text(out) == designation(token@),
{
    let at = text::find_char(token, '=', 0);
    if at >= token.len() {
        return None;
    }
    let key = text::up_to_position(token, at);
    if text::is_text(key, "out") || text::is_text(key, "file") || text::is_text(key, "result") {
        let value = text::from_position(token, at + 1);
        Some(text::to_text(text::without_surrounding(value, '"')))
    } else {
        None
    }
}

/// What an info string says, when it names a shell.
pub fn shell_fence_info(info: &[char]) -> (shell: Option<ShellInfo>)
    ensures
        shell is Some <==> shell_info(info@) is Some,
        shell matches Some(i) ==> i@ == shell_info(info@)->0,
{
    let tokens = tokenize_info(info);
    if tokens.len() == 0 {
        assert(token_texts(tokens@).len() == 0);
        return None;
    }
    assert(token_texts(tokens@)[0] == tokens@[0]@);
    if !names_shell(tokens[0].as_slice()) {
        return None;
    }
    let ghost texts = token_texts(tokens@).drop_first();
    let mut out: Option<String> = None;
    assert(texts.take(0) =~= Seq::empty());
    for i in 1..tokens.len()
        invariant
            texts == token_texts(tokens@).drop_first(),
            text::opt_text(out) == last_designation(texts.take(i - 1)),
    {
        assert(texts.take(i as int).drop_last() =~= texts.take(i - 1));
        assert(texts.take(i as int).last() == tokens@[i as int]@);
        let found = designated_by(tokens[i].as_slice());
        if found.is_some() {
            out = found;
        }
    }
    assert(texts.take(texts.len() as int) =~= texts);
    Some(ShellInfo { lang: text::to_text(tokens[0].as_slice()), out })
}

/// Whether a text can stand as a word in an info string: it is not empty, and holds neither white
/// space nor quotes.
pub open spec fn is_word(s: Seq<char>) -> bool {
    s.len() > 0 && forall|i: int|
        0 <= i < s.len() ==> !text::is_white_space(#[trigger] s[i]) && s[i] != '"'
}

/// Characters that neither separate tokens nor quote are added to the token that was begun.
proof fn lemma_plain_part(part: Seq<char>, rest: Seq<char>, current: Seq<char>)
    requires
        forall|i: int|
            0 <= i < part.len() ==> !text::is_white_space(#[trigger] part[i]) && part[i] != '"',
    ensures
        tokens_from(part + rest, current, false) == tokens_from(rest, current + part, false),
    decreases part.len(),
{
    let all = part + rest;
    if part.len() == 0 {
        assert(all =~= rest);
        assert(current + part =~= current);
    } else {
        let next = part.drop_first();
        assert(all.drop_first() =~= next + rest);
        assert(all[0] == part[0]);
        assert forall|i: int| 0 <= i < next.len() implies !text::is_white_space(#[trigger] next[i])
            && next[i] != '"' by {
            assert(next[i] == part[i + 1]);
        }
        lemma_plain_part(next, rest, current.push(part[0]));
        assert(current.push(part[0]) + next =~= current + part);
    }
}

/// Characters between quotes are added to the token that was begun, white space among them.
proof fn lemma_quoted_part(part: Seq<char>, rest: Seq<char>, current: Seq<char>)
    requires
        !part.contains('"'),
    ensures
        tokens_from(part + rest, current, true) == tokens_from(rest, current + part, true),
    decreases part.len(),
{
    let all = part + rest;
    if part.len() == 0 {
        assert(all =~= rest);
        assert(current + part =~= current);
    } else {
        let next = part.drop_first();
        assert(all.drop_first() =~= next + rest);
        assert(all[0] == part[0]);
        assert(part.contains(part[0]));
        assert(!next.contains('"')) by {
            if next.contains('"') {
                let i = choose|i: int| 0 <= i < next.len() && next[i] == '"';
                assert(part[i + 1] == '"');
            }
        }
        lemma_quoted_part(next, rest, current.push(part[0]));
        assert(current.push(part[0]) + next =~= current + part);
    }
}

/// A word is a token, and white space after it separates it from the tokens that follow. White
/// space before the first token does not count.
pub proof fn law_words_are_tokens(word: Seq<char>, space: char, rest: Seq<char>)
    requires
        is_word(word),
        text::is_white_space(space),
    ensures
        tokens(word) == seq![word],
        tokens(word + seq![space] + rest) == seq![word] + tokens(rest),
        tokens(seq![space] + rest) == tokens(rest),
{
    let none = Seq::<char>::empty();
    lemma_plain_part(word, none, none);
    assert(word + none =~= word);
    assert(none + word =~= word);
    let more = seq![space] + rest;
    assert(word + seq![space] + rest =~= word + more);
    lemma_plain_part(word, more, none);
    assert(more.drop_first() =~= rest);
    assert(space != '"');
}

/// A fence names a shell exactly if its first word is `shell`, `sh`, `bash` or `zsh`, in letters of
/// either case.
pub proof fn law_shell_names(lang: Seq<char>, rest: Seq<char>)
    requires
        is_word(lang),
    ensures
        shell_info(lang) is Some <==> is_one_of_the_shells(lang),
        shell_info(lang + seq![' '] + rest) is Some <==> is_one_of_the_shells(lang),
        is_one_of_the_shells(lang) ==> shell_info(lang) == Some(
            ShellInfoModel { lang, out: None },
        ),
        is_one_of_the_shells(lang) ==> shell_info(lang + seq![' '] + rest)->0.lang == lang,
{
    law_words_are_tokens(lang, ' ', rest);
    lemma_same_letters(lang, "shell"@);
    lemma_same_letters(lang, "sh"@);
    lemma_same_letters(lang, "bash"@);
    lemma_same_letters(lang, "zsh"@);
    reveal_strlit("shell");
    reveal_strlit("sh");
    reveal_strlit("bash");
    reveal_strlit("zsh");
    assert(tokens(lang).drop_first() =~= Seq::empty());
}

/// Whether a text is the name of one of the shells, in letters of either case.
pub open spec fn is_one_of_the_shells(lang: Seq<char>) -> bool {
    ||| same_letters(lang, "shell"@)
    ||| same_letters(lang, "sh"@)
    ||| same_letters(lang, "bash"@)
    ||| same_letters(lang, "zsh"@)
}

/// Whether a text consists of the letters of `name`, in either case.
pub open spec fn same_letters(s: Seq<char>, name: Seq<char>) -> bool {
    s.len() == name.len() && forall|i: int|
        0 <= i < s.len() ==> (#[trigger] s[i] == name[i] || s[i] as int == name[i] as int - 32)
}

proof fn lemma_same_letters(s: Seq<char>, name: Seq<char>)
    ensures
        (forall|i: int| 0 <= i < name.len() ==> 'a' <= #[trigger] name[i] <= 'z') ==> (same_letters(
            s,
            name,
        ) <==> lower(s) == name),
{
    if forall|i: int| 0 <= i < name.len() ==> 'a' <= #[trigger] name[i] <= 'z' {
        if same_letters(s, name) {
            assert forall|i: int| 0 <= i < s.len() implies #[trigger] lower(s)[i] == name[i] by {
                assert(s[i] == name[i] || s[i] as int == name[i] as int - 32);
                assert('a' <= name[i] <= 'z');
            }
            assert(lower(s) =~= name);
        }
        if lower(s) == name {
            assert forall|i: int| 0 <= i < s.len() implies (#[trigger] s[i] == name[i] || s[i] as int
                == name[i] as int - 32) by {
                assert(lower(s)[i] == ascii_lower(s[i]));
            }
        }
    }
}

/// A destination is designated with `out=`, `file=` or `result=`: as a word, or between quotes when
/// it holds spaces.
pub proof fn law_out_designates_a_file(lang: Seq<char>, key: Seq<char>, path: Seq<char>)
    requires
        is_word(lang),
        is_one_of_the_shells(lang),
        key == "out"@ || key == "file"@ || key == "result"@,
    ensures
        is_word(path) ==> shell_info(lang + seq![' '] + key + seq!['='] + path) == Some(
            ShellInfoModel { lang, out: Some(path) },
        ),
        !path.contains('"') ==> shell_info(
            lang + seq![' '] + key + seq!['=', '"'] + path + seq!['"'],
        ) == Some(ShellInfoModel { lang, out: Some(path) }),
{
    reveal_strlit("out");
    reveal_strlit("file");
    reveal_strlit("result");
    assert(is_word(key) && !key.contains('='));
    let none = Seq::<char>::empty();
    if is_word(path) {
        let token = key + seq!['='] + path;
        assert(lang + seq![' '] + key + seq!['='] + path =~= lang + seq![' '] + token);
        assert forall|i: int| 0 <= i < token.len() implies !text::is_white_space(
            #[trigger] token[i],
        ) && token[i] != '"' by {
            if i < key.len() {
                assert(token[i] == key[i]);
            } else if i > key.len() {
                assert(token[i] == path[i - key.len() - 1]);
            }
        }
        law_shell_names(lang, token);
        law_words_are_tokens(lang, ' ', token);
        law_words_are_tokens(token, ' ', none);
        lemma_designation(key, path);
        text::lemma_trimmed_quotes(path);
        lemma_one_designation(lang, token, path);
    }
    if !path.contains('"') {
        let quoted = seq!['"'] + path + seq!['"'];
        let token = key + seq!['='] + quoted;
        assert(lang + seq![' '] + key + seq!['=', '"'] + path + seq!['"'] =~= lang + seq![' ']
            + token);
        law_shell_names(lang, token);
        law_words_are_tokens(lang, ' ', token);
        let head = key + seq!['='];
        assert forall|i: int| 0 <= i < head.len() implies !text::is_white_space(#[trigger] head[i])
            && head[i] != '"' by {
            if i < key.len() {
                assert(head[i] == key[i]);
            }
        }
        assert(token =~= head + quoted);
        lemma_plain_part(head, quoted, none);
        assert(none + head =~= head);
        assert(quoted.drop_first() =~= path + seq!['"']);
        lemma_quoted_part(path, seq!['"'], head.push('"'));
        assert(seq!['"'].drop_first() =~= none);
        assert((head.push('"') + path).push('"') =~= token);
        let begun = head.push('"') + path;
        assert(quoted[0] == '"');
        assert(tokens(token) == tokens_from(quoted, head, false));
        assert(tokens_from(quoted, head, false) == tokens_from(
            path + seq!['"'],
            head.push('"'),
            true,
        ));
        assert(tokens_from(seq!['"'], begun, true) == tokens_from(none, begun.push('"'), false));
        assert(tokens(token) == seq![token]);
        lemma_designation(key, quoted);
        text::lemma_trimmed_quotes(path);
        lemma_one_designation(lang, token, path);
    }
}

/// What a token with a key designates.
proof fn lemma_designation(key: Seq<char>, value: Seq<char>)
    requires
        key == "out"@ || key == "file"@ || key == "result"@,
        !key.contains('='),
    ensures
        designation(key + seq!['='] + value) == Some(text::trim_char(value, '"')),
{
    let token = key + seq!['='] + value;
    let n = key.len() as int;
    assert forall|i: int| 0 <= i < n implies token[i] != '=' by {
        assert(token[i] == key[i]);
        assert(key.contains(key[i]));
    }
    text::lemma_find_from_is(token, '=', 0, n);
    assert(token.take(n) =~= key);
    assert(token.skip(n + 1) =~= value);
}

proof fn lemma_one_designation(lang: Seq<char>, token: Seq<char>, path: Seq<char>)
    requires
        tokens(lang + seq![' '] + token) == seq![lang] + tokens(token),
        tokens(token) == seq![token],
        designation(token) == Some(path),
        is_shell(lang),
    ensures
        shell_info(lang + seq![' '] + token) == Some(ShellInfoModel { lang, out: Some(path) }),
{
    let t = tokens(lang + seq![' '] + token);
    assert(t.drop_first() =~= seq![token]);
    assert(last_designation(seq![token]) == Some(path));
}

/// Of several designations the last one counts, and tokens that designate nothing are passed over.
pub proof fn law_last_designation_counts(tokens: Seq<Seq<char>>, i: int)
    requires
        0 <= i < tokens.len(),
        designation(tokens[i]) is Some,
        forall|j: int| i < j < tokens.len() ==> designation(#[trigger] tokens[j]) is None,
    ensures
        last_designation(tokens) == designation(tokens[i]),
    decreases tokens.len(),
{
    if i < tokens.len() - 1 {
        let before = tokens.drop_last();
        assert(designation(tokens[tokens.len() - 1]) is None);
        assert forall|j: int| i < j < before.len() implies designation(#[trigger] before[j]) is None by {
            assert(before[j] == tokens[j]);
        }
        law_last_designation_counts(before, i);
    }
}

/// Only a word of the form `out=`, `file=` or `result=` with a path designates one.
pub proof fn law_other_words_designate_nothing(key: Seq<char>, path: Seq<char>)
    requires
        !key.contains('='),
    ensures
        designation(key) is None,
        designation(key + seq!['='] + path) is Some <==> key == "out"@ || key == "file"@ || key
            == "result"@,
{
    let token = key + seq!['='] + path;
    let n = key.len() as int;
    assert forall|i: int| 0 <= i < n implies token[i] != '=' by {
        assert(token[i] == key[i]);
        assert(key.contains(key[i]));
    }
    text::lemma_find_from_is(token, '=', 0, n);
    assert(token.take(n) =~= key);
    text::lemma_find_from(key, '=', 0);
    let at = text::find_from(key, '=', 0);
    if at < key.len() {
        assert(key.contains(key[at]));
    }
}

} // verus!
