//! Word and punctuation tokenization, word frequencies and bigrams.
use vstd::prelude::*;
use std::collections::BTreeMap;

use std::time::Duration;
use crate::timing::{self, is_median_sample};

verus! {

/// What a token is made of.
#[derive(Debug, Clone, Copy, PartialEq, Eq, Structural)]
pub enum TokenKind {
    Word,
    Punctuation,
}

/// A run of word characters or of punctuation, borrowed from the input.
#[derive(Debug, Clone, Copy, PartialEq, Eq)]
pub struct Token<'a> {
    pub text: &'a str,
    pub kind: TokenKind,
}

/// ASCII letters and digits, and the underscore.
pub open spec fn is_word_char(c: char) -> bool {
    ('a' <= c <= 'z') || ('A' <= c <= 'Z') || ('0' <= c <= '9') || c == '_'
}

/// Characters with the Unicode `White_Space` property.
pub open spec fn is_white_space(c: char) -> bool {
    ('\u{9}' <= c <= '\u{d}') || c == ' ' || c == '\u{85}' || c == '\u{a0}' || c == '\u{1680}' || ('\u{2000}' <= c
        <= '\u{200a}') || c == '\u{2028}' || c == '\u{2029}' || c == '\u{202f}' || c == '\u{205f}' || c == '\u{3000}'
}

/// The token kind a character belongs to; whitespace separates tokens.
pub open spec fn char_class(c: char) -> Option<TokenKind> {
    if is_word_char(c) {
        Some(TokenKind::Word)
    } else if is_white_space(c) {
        None
    } else {
        Some(TokenKind::Punctuation)
    }
}

/// The decimal digits of `n`, most significant first, with no leading zeros
/// (`"0"` for zero): how `Display` writes an unsigned integer.
pub open spec fn decimal_text(n: nat) -> Seq<char>
    decreases n,
{
    if n < 10 {
        seq![(48 + n) as char]
    } else {
        decimal_text(n / 10).push((48 + n % 10) as char)
    }
}

/// Whether `c` is Unicode whitespace, as `char::is_whitespace` decides.
pub(crate) fn is_space(c: char) -> (r: bool)
    ensures
        r == is_white_space(c),
{
    ('\u{9}' <= c && c <= '\u{d}') || c == ' ' || c == '\u{85}' || c == '\u{a0}' || c == '\u{1680}' || ('\u{2000}'
        <= c && c <= '\u{200a}') || c == '\u{2028}' || c == '\u{2029}' || c == '\u{202f}' || c == '\u{205f}' || c
        == '\u{3000}'
}

fn char_kind(c: char) -> (r: Option<TokenKind>)
    ensures
        r == char_class(c),
{
    if ('a' <= c && c <= 'z') || ('A' <= c && c <= 'Z') || ('0' <= c && c <= '9') || c == '_' {
        Some(TokenKind::Word)
    } else if ('\u{9}' <= c && c <= '\u{d}') || c == ' ' || c == '\u{85}' || c == '\u{a0}' || c == '\u{1680}' || ('\u{2000}'
        <= c && c <= '\u{200a}') || c == '\u{2028}' || c == '\u{2029}' || c == '\u{202f}' || c == '\u{205f}' || c
        == '\u{3000}' {
        None
    } else {
        Some(TokenKind::Punctuation)
    }
}

/// Scanning the first `n` characters left to right: the tokens closed so far
/// (start, end, kind) and the token still open (start, kind), if any. A token
/// closes at whitespace or at a character of the other kind.
pub open spec fn scan(s: Seq<char>, n: int) -> (Seq<(int, int, TokenKind)>, Option<(int, TokenKind)>)
    decreases n,
{
    if n <= 0 {
        (Seq::empty(), None)
    } else {
        let prev = scan(s, n - 1);
        let i = n - 1;
        match prev.1 {
            None => match char_class(s[i]) {
                None => prev,
                Some(k) => (prev.0, Some((i, k))),
            },
            Some(open) => match char_class(s[i]) {
                None => (prev.0.push((open.0, i, open.1)), None),
                Some(k) => if k != open.1 {
                    (prev.0.push((open.0, i, open.1)), Some((i, k)))
                } else {
                    prev
                },
            },
        }
    }
}

/// The tokens of `s`: maximal runs of word characters and maximal runs of
/// other non-whitespace characters, as (start, end, kind) in order.
pub open spec fn token_spans(s: Seq<char>) -> Seq<(int, int, TokenKind)> {
    let st = scan(s, s.len() as int);
    match st.1 {
        None => st.0,
        Some(open) => st.0.push((open.0, s.len() as int, open.1)),
    }
}

/// Facts about the scan: closed tokens are non-empty, ordered and inside the
/// scanned prefix, and an open token starts inside it.
pub proof fn lemma_scan(s: Seq<char>, n: int)
    requires
        0 <= n <= s.len(),
    ensures
        forall|j: int|
            0 <= j < scan(s, n).0.len() ==> 0 <= (#[trigger] scan(s, n).0[j]).0 < scan(s, n).0[j].1 <= n,
        forall|j: int| 0 < j < scan(s, n).0.len() ==> scan(s, n).0[j - 1].1 <= (#[trigger] scan(s, n).0[j]).0,
        scan(s, n).1 matches Some(open) ==> 0 <= open.0 < n && (scan(s, n).0.len() > 0 ==> scan(s, n).0.last().1 <= open.0),
    decreases n,
{
    if n > 0 {
        lemma_scan(s, n - 1);
    }
}

/// The characters the scan has covered so far each belong to the token that
/// holds them: closed tokens and the open one hold only characters of their
/// kind.
proof fn lemma_scan_kinds(s: Seq<char>, n: int)
    requires
        0 <= n <= s.len(),
    ensures
        forall|j: int, i: int|
            #![trigger scan(s, n).0[j], s[i]]
            0 <= j < scan(s, n).0.len() && scan(s, n).0[j].0 <= i < scan(s, n).0[j].1 ==> char_class(s[i]) == Some(
                scan(s, n).0[j].2,
            ),
        scan(s, n).1 matches Some(open) ==> forall|i: int| open.0 <= i < n ==> char_class(#[trigger] s[i]) == Some(open.1),
    decreases n,
{
    if n > 0 {
        lemma_scan_kinds(s, n - 1);
        lemma_scan(s, n - 1);
        let prev = scan(s, n - 1);
        let cur = scan(s, n);
        assert forall|j: int, i: int|
            #![trigger cur.0[j], s[i]]
            0 <= j < cur.0.len() && cur.0[j].0 <= i < cur.0[j].1 implies char_class(s[i]) == Some(cur.0[j].2) by {
            if j < prev.0.len() {
                assert(cur.0[j] == prev.0[j]);
            }
        }
    }
}

/// No token holds a whitespace character (Unicode `White_Space`, so also
/// line feeds and tabs): whitespace only separates tokens. A word token holds
/// only ASCII letters, digits and underscores, and a punctuation token holds
/// none of them.
pub proof fn lemma_tokens_hold_no_whitespace(s: Seq<char>)
    ensures
        forall|j: int, i: int|
            #![trigger token_spans(s)[j], s[i]]
            0 <= j < token_spans(s).len() && token_spans(s)[j].0 <= i < token_spans(s)[j].1 ==> {
                &&& 0 <= i < s.len()
                &&& !is_white_space(s[i])
                &&& (token_spans(s)[j].2 == TokenKind::Word <==> is_word_char(s[i]))
            },
{
    let n = s.len() as int;
    lemma_scan_kinds(s, n);
    lemma_scan(s, n);
    let st = scan(s, n);
    let t = token_spans(s);
    assert forall|j: int, i: int| #![trigger t[j], s[i]] 0 <= j < t.len() && t[j].0 <= i < t[j].1 implies {
        &&& 0 <= i < s.len()
        &&& !is_white_space(s[i])
        &&& (t[j].2 == TokenKind::Word <==> is_word_char(s[i]))
    } by {
        if j < st.0.len() {
            assert(t[j] == st.0[j]);
        }
        assert(char_class(s[i]) == Some(t[j].2));
    }
}

/// Where the scan's tokens start and stop: each closed token stops before a
/// character that cannot continue it and starts after one that could not
/// have, the open token starts likewise, and every scanned character with a
/// kind lies in a closed token or in the open one.
proof fn lemma_scan_edges(s: Seq<char>, n: int)
    requires
        0 <= n <= s.len(),
    ensures
        forall|j: int|
            0 <= j < scan(s, n).0.len() ==> #[trigger] scan(s, n).0[j].1 < n && char_class(s[scan(s, n).0[j].1])
                != Some(scan(s, n).0[j].2) && (scan(s, n).0[j].0 == 0 || char_class(s[scan(s, n).0[j].0 - 1]) != Some(
                scan(s, n).0[j].2,
            )),
        scan(s, n).1 matches Some(o) ==> (o.0 == 0 || char_class(s[o.0 - 1]) != Some(o.1)),
        scan(s, n).1 is None ==> (n == 0 || char_class(s[n - 1]) is None),
        forall|i: int|
            0 <= i < n && char_class(#[trigger] s[i]) is Some ==> (exists|j: int|
                0 <= j < scan(s, n).0.len() && (#[trigger] scan(s, n).0[j]).0 <= i < scan(s, n).0[j].1) || (scan(
                s,
                n,
            ).1 matches Some(o) && o.0 <= i),
    decreases n,
{
    if n > 0 {
        lemma_scan_edges(s, n - 1);
        lemma_scan(s, n - 1);
        lemma_scan_kinds(s, n - 1);
        let prev = scan(s, n - 1);
        let cur = scan(s, n);
        let i = n - 1;
        assert forall|j: int| 0 <= j < prev.0.len() implies cur.0[j] == prev.0[j] by {
            if cur.0.len() > prev.0.len() {
                assert(cur.0 == prev.0.push(cur.0.last()));
            }
        }
        if let Some(o) = prev.1 {
            assert(o.0 < n - 1 || o.0 == n - 1);
            if o.0 <= i - 1 {
                assert(char_class(s[i - 1]) == Some(o.1));
            }
        }
        assert forall|k: int|
            0 <= k < n && char_class(#[trigger] s[k]) is Some implies (exists|j: int|
                0 <= j < cur.0.len() && (#[trigger] cur.0[j]).0 <= k < cur.0[j].1) || (cur.1 matches Some(o) && o.0 <= k) by {
            if k < i {
                if exists|j: int| 0 <= j < prev.0.len() && (#[trigger] prev.0[j]).0 <= k < prev.0[j].1 {
                    let j = choose|j: int| 0 <= j < prev.0.len() && (#[trigger] prev.0[j]).0 <= k < prev.0[j].1;
                    assert(cur.0[j] == prev.0[j]);
                } else {
                    let o = prev.1->Some_0;
                    if cur.0.len() > prev.0.len() {
                        assert(cur.0[prev.0.len() as int] == (o.0, i, o.1));
                    }
                }
            } else {
                if cur.0.len() > prev.0.len() {
                    assert(cur.1 == Some((i, char_class(s[i])->Some_0)));
                }
            }
        }
    }
}

/// The tokens are the maximal runs of one kind: every character that is not
/// whitespace lies in a token, tokens come in order without overlapping, and
/// no token can be grown, since the character just before it and the one
/// just after it (where there are such) are whitespace or of the other kind.
pub proof fn lemma_tokens_are_maximal_runs(s: Seq<char>)
    ensures
        forall|i: int|
            0 <= i < s.len() && !is_white_space(#[trigger] s[i]) ==> exists|j: int|
                0 <= j < token_spans(s).len() && (#[trigger] token_spans(s)[j]).0 <= i < token_spans(s)[j].1,
        forall|j: int| 0 < j < token_spans(s).len() ==> token_spans(s)[j - 1].1 <= (#[trigger] token_spans(s)[j]).0,
        forall|j: int|
            0 <= j < token_spans(s).len() ==> {
                let t = #[trigger] token_spans(s)[j];
                &&& 0 <= t.0 < t.1 <= s.len()
                &&& (t.1 == s.len() || is_white_space(s[t.1]) || (is_word_char(s[t.1]) != (t.2 == TokenKind::Word)))
                &&& (t.0 == 0 || is_white_space(s[t.0 - 1]) || (is_word_char(s[t.0 - 1]) != (t.2
                    == TokenKind::Word)))
            },
{
    let n = s.len() as int;
    lemma_scan_edges(s, n);
    lemma_scan(s, n);
    let st = scan(s, n);
    let t = token_spans(s);
    assert forall|j: int| 0 <= j < st.0.len() implies t[j] == st.0[j] by {}
    assert forall|i: int| 0 <= i < s.len() && !is_white_space(#[trigger] s[i]) implies exists|j: int|
        0 <= j < t.len() && (#[trigger] t[j]).0 <= i < t[j].1 by {
        assert(char_class(s[i]) is Some);
        if exists|j: int| 0 <= j < st.0.len() && (#[trigger] st.0[j]).0 <= i < st.0[j].1 {
            let j = choose|j: int| 0 <= j < st.0.len() && (#[trigger] st.0[j]).0 <= i < st.0[j].1;
            assert(t[j] == st.0[j]);
        } else {
            let o = st.1->Some_0;
            assert(t[st.0.len() as int] == (o.0, n, o.1));
        }
    }
    assert forall|j: int| 0 < j < t.len() implies t[j - 1].1 <= (#[trigger] t[j]).0 by {
        if j < st.0.len() {
            assert(t[j] == st.0[j]);
            assert(t[j - 1] == st.0[j - 1]);
        } else {
            assert(t[j - 1] == st.0[j - 1]);
        }
    }
}

/// The characters `char::is_whitespace` names, among them the space, tab,
/// line feed, vertical tab, form feed, carriage return and the no-break
/// space, are whitespace; letters, digits and punctuation marks are not.
/// ASCII letters, digits and the underscore make words; punctuation marks
/// and letters outside ASCII do not.
pub proof fn lemma_white_space_members(c: char)
    ensures
        (c == ' ' || c == '\t' || c == '\n' || c == '\u{b}' || c == '\u{c}' || c == '\r' || c == '\u{a0}' || c
            == '\u{3000}') ==> is_white_space(c),
        is_word_char(c) ==> !is_white_space(c),
        ('!' <= c <= '/') ==> !is_white_space(c) && !is_word_char(c),
        (('a' <= c <= 'z') || ('A' <= c <= 'Z') || ('0' <= c <= '9') || c == '_') ==> is_word_char(c),
        (c == '-' || c == '.' || c == ',' || c == '\'' || c == '\u{e9}') ==> !is_word_char(c),
{
}

/// The characters of `s`.
pub(crate) fn chars_of(s: &str) -> (r: Vec<char>)
    ensures
        r@ == s@,
{
    let mut out: Vec<char> = Vec::new();
    for c in it: s.chars()
        invariant
            out@ == it.seq().take(it.index() as int),
            it.seq() == s@,
    {
        out.push(c);
    }
    out
}

/// Split `input` into word tokens (ASCII letters, digits, `_`) and punctuation
/// tokens (other non-whitespace characters), dropping whitespace.
pub fn wordpunct_tokens(input: &str) -> (r: Vec<Token<'_>>)
    ensures
        r@.len() == token_spans(input@).len(),
        forall|j: int|
            0 <= j < r@.len() ==> (#[trigger] r@[j]).text@ == input@.subrange(token_spans(input@)[j].0, token_spans(input@)[j].1)
                && r@[j].kind == token_spans(input@)[j].2,
        forall|j: int, i: int|
            #![trigger r@[j].text@[i]]
            0 <= j < r@.len() && 0 <= i < r@[j].text@.len() ==> !is_white_space(r@[j].text@[i]) && (r@[j].kind
                == TokenKind::Word <==> is_word_char(r@[j].text@[i])),
{
    let chars = chars_of(input);
    let n = chars.len();
    let mut tokens: Vec<Token<'_>> = Vec::new();
    let mut open: Option<(usize, TokenKind)> = None;
    let mut i: usize = 0;
    while i < n
        invariant
            chars@ == input@,
            n == input@.len(),
            i <= n,
            tokens@.len() == scan(input@, i as int).0.len(),
            forall|j: int|
                0 <= j < tokens@.len() ==> (#[trigger] tokens@[j]).text@ == input@.subrange(
                    scan(input@, i as int).0[j].0,
                    scan(input@, i as int).0[j].1,
                ) && tokens@[j].kind == scan(input@, i as int).0[j].2,
            match open {
                None => scan(input@, i as int).1 is None,
                Some(o) => scan(input@, i as int).1 == Some((o.0 as int, o.1)),
            },
        decreases n - i,
    {
        proof {
            lemma_scan(input@, i as int);
        }
        let kind = char_kind(chars[i]);
        let ghost prev_tokens = tokens@;
        match open {
            None => {
                if let Some(k) = kind {
                    open = Some((i, k));
                }
            },
            Some(o) => {
                match kind {
                    None => {
                        let text = input.substring_char(o.0, i);
                        tokens.push(Token { text, kind: o.1 });
                        open = None;
                    },
                    Some(k) => {
                        if k != o.1 {
                            let text = input.substring_char(o.0, i);
                            tokens.push(Token { text, kind: o.1 });
                            open = Some((i, k));
                        }
                    },
                }
            },
        }
        proof {
            assert forall|j: int| 0 <= j < tokens@.len() implies (#[trigger] tokens@[j]).text@ == input@.subrange(
                scan(input@, i + 1).0[j].0,
                scan(input@, i + 1).0[j].1,
            ) && tokens@[j].kind == scan(input@, i + 1).0[j].2 by {
                if j < prev_tokens.len() {
                    assert(tokens@[j] == prev_tokens[j]);
                }
            }
        }
        i += 1;
    }
    proof {
        lemma_scan(input@, n as int);
    }
    if let Some(o) = open {
        let text = input.substring_char(o.0, n);
        let ghost prev_tokens = tokens@;
        tokens.push(Token { text, kind: o.1 });
        proof {
            assert forall|j: int| 0 <= j < tokens@.len() implies (#[trigger] tokens@[j]).text@ == input@.subrange(
                token_spans(input@)[j].0,
                token_spans(input@)[j].1,
            ) && tokens@[j].kind == token_spans(input@)[j].2 by {
                if j < prev_tokens.len() {
                    assert(tokens@[j] == prev_tokens[j]);
                }
            }
        }
    }
    proof {
        lemma_tokens_hold_no_whitespace(input@);
        lemma_scan(input@, n as int);
        assert forall|j: int, i: int|
            #![trigger tokens@[j].text@[i]]
            0 <= j < tokens@.len() && 0 <= i < tokens@[j].text@.len() implies !is_white_space(tokens@[j].text@[i]) && (
            tokens@[j].kind == TokenKind::Word <==> is_word_char(tokens@[j].text@[i])) by {
            let sp = token_spans(input@)[j];
            assert(tokens@[j].text@ == input@.subrange(sp.0, sp.1));
            assert(tokens@[j].text@[i] == input@[sp.0 + i]);
        }
    }
    tokens
}

/// ASCII upper-case letters mapped to lower case; other characters unchanged.
pub open spec fn lower_char(c: char) -> char {
    if 'A' <= c <= 'Z' {
        ((c as u32) + 32) as char
    } else {
        c
    }
}

pub open spec fn lower_seq(s: Seq<char>) -> Seq<char> {
    Seq::new(s.len(), |i: int| lower_char(s[i]))
}

/// `str::to_ascii_lowercase`: a copy with ASCII letters `A`-`Z` mapped to
/// `a`-`z` and every other character unchanged, as its documentation states.
#[verifier::external_body]
fn ascii_lowercase(s: &str) -> (r: String)
    ensures
        r@ == lower_seq(s@),
{
    s.to_ascii_lowercase()
}

/// `BTreeMap::insert` on string keys: the entry for the key's text is set to
/// `v`, replacing any entry whose key has the same text.
#[verifier::external_body]
fn count_insert(m: &mut BTreeMap<String, usize>, k: String, v: usize)
    ensures
        final(m).deep_view() == old(m).deep_view().insert(k@, v),
{
    m.insert(k, v);
}

/// `BTreeMap::get` on string keys: the value stored under the key's text, if any.
#[verifier::external_body]
fn count_get(m: &BTreeMap<String, usize>, k: &String) -> (r: Option<usize>)
    ensures
        r == (if m.deep_view().contains_key(k@) {
            Some(m.deep_view()[k@])
        } else {
            None
        }),
{
    m.get(k).copied()
}

/// The lower-cased texts of the word tokens among the first `n` token spans.
pub open spec fn words_upto(s: Seq<char>, spans: Seq<(int, int, TokenKind)>, n: int) -> Seq<Seq<char>>
    decreases n,
{
    if n <= 0 {
        Seq::empty()
    } else {
        let prev = words_upto(s, spans, n - 1);
        let t = spans[n - 1];
        if t.2 == TokenKind::Word {
            prev.push(lower_seq(s.subrange(t.0, t.1)))
        } else {
            prev
        }
    }
}

/// The lower-cased texts of the word tokens of `s`, in order.
pub open spec fn lower_words(s: Seq<char>) -> Seq<Seq<char>> {
    words_upto(s, token_spans(s), token_spans(s).len() as int)
}

/// Number of occurrences of `w` in `ws`.
pub open spec fn occurrences(ws: Seq<Seq<char>>, w: Seq<char>) -> nat
    decreases ws.len(),
{
    if ws.len() == 0 {
        0
    } else {
        occurrences(ws.drop_last(), w) + if ws.last() == w { 1nat } else { 0nat }
    }
}

proof fn lemma_occurrences_bound(ws: Seq<Seq<char>>, w: Seq<char>)
    ensures
        occurrences(ws, w) <= ws.len(),
        occurrences(ws, w) > 0 <==> ws.contains(w),
    decreases ws.len(),
{
    if ws.len() > 0 {
        lemma_occurrences_bound(ws.drop_last(), w);
        if ws.drop_last().contains(w) {
            let i = choose|i: int| 0 <= i < ws.drop_last().len() && ws.drop_last()[i] == w;
            assert(ws[i] == w);
        }
        if ws.contains(w) && ws.last() != w {
            let i = choose|i: int| 0 <= i < ws.len() && ws[i] == w;
            assert(ws.drop_last()[i] == w);
        }
        if ws.last() == w {
            assert(ws[ws.len() - 1] == w);
        }
    }
}

/// The lower-cased word texts of `spans`, in order.
fn lower_word_list(tokens: &Vec<Token<'_>>, Ghost(s): Ghost<Seq<char>>) -> (r: Vec<String>)
    requires
        tokens@.len() == token_spans(s).len(),
        forall|j: int|
            0 <= j < tokens@.len() ==> (#[trigger] tokens@[j]).text@ == s.subrange(token_spans(s)[j].0, token_spans(s)[j].1)
                && tokens@[j].kind == token_spans(s)[j].2,
    ensures
        r@.len() == lower_words(s).len(),
        forall|j: int| 0 <= j < r@.len() ==> (#[trigger] r@[j])@ == lower_words(s)[j],
{
    let mut out: Vec<String> = Vec::new();
    let mut j: usize = 0;
    while j < tokens.len()
        invariant
            tokens@.len() == token_spans(s).len(),
            forall|q: int|
                0 <= q < tokens@.len() ==> (#[trigger] tokens@[q]).text@ == s.subrange(token_spans(s)[q].0, token_spans(s)[q].1)
                    && tokens@[q].kind == token_spans(s)[q].2,
            j <= tokens@.len(),
            out@.len() == words_upto(s, token_spans(s), j as int).len(),
            forall|q: int| 0 <= q < out@.len() ==> (#[trigger] out@[q])@ == words_upto(s, token_spans(s), j as int)[q],
        decreases tokens@.len() - j,
    {
        let t = tokens[j];
        let ghost prev = out@;
        if t.kind == TokenKind::Word {
            out.push(ascii_lowercase(t.text));
        }
        proof {
            assert forall|q: int| 0 <= q < out@.len() implies (#[trigger] out@[q])@ == words_upto(s, token_spans(s), j + 1)[q] by {
                if q < prev.len() {
                    assert(out@[q] == prev[q]);
                }
            }
        }
        j += 1;
    }
    out
}

/// Count the lower-cased word tokens of `input` (punctuation is skipped).
pub fn lowercase_word_frequencies(input: &str) -> (r: BTreeMap<String, usize>)
    ensures
        r.deep_view() == Map::new(
            |w: Seq<char>| lower_words(input@).contains(w),
            |w: Seq<char>| occurrences(lower_words(input@), w) as usize,
        ),
{
    let tokens = wordpunct_tokens(input);
    let words = lower_word_list(&tokens, Ghost(input@));
    let ghost ws = lower_words(input@);
    let mut counts: BTreeMap<String, usize> = BTreeMap::new();
    proof {
        vstd::std_specs::btree::lemma_btree_map_deepview_dom(counts);
        assert(counts.deep_view().dom() =~= Set::<Seq<char>>::empty());
        assert(counts.deep_view() =~= Map::new(
            |w: Seq<char>| ws.take(0).contains(w),
            |w: Seq<char>| occurrences(ws.take(0), w) as usize,
        ));
    }
    let mut j: usize = 0;
    while j < words.len()
        invariant
            ws == lower_words(input@),
            words@.len() == ws.len(),
            forall|q: int| 0 <= q < words@.len() ==> (#[trigger] words@[q])@ == ws[q],
            j <= words@.len(),
            counts.deep_view() == Map::new(
                |w: Seq<char>| ws.take(j as int).contains(w),
                |w: Seq<char>| occurrences(ws.take(j as int), w) as usize,
            ),
        decreases words@.len() - j,
    {
        let w = words[j].clone();
        let ghost pre = ws.take(j as int);
        let ghost next = ws.take(j as int + 1);
        proof {
            assert(next.drop_last() =~= pre);
            assert(next.last() == ws[j as int]);
            lemma_occurrences_bound(pre, w@);
            lemma_occurrences_bound(next, w@);
            assert(w@ == ws[j as int]);
        }
        let current = count_get(&counts, &w);
        let c: usize = match current {
            Some(c) => c,
            None => 0,
        };
        proof {
            assert(c == occurrences(pre, w@));
        }
        count_insert(&mut counts, w, c + 1);
        proof {
            assert forall|x: Seq<char>| #![trigger next.contains(x)] next.contains(x) <==> (pre.contains(x) || x == ws[j as int]) by {
                if next.contains(x) {
                    let i = choose|i: int| 0 <= i < next.len() && next[i] == x;
                    if i < pre.len() {
                        assert(pre[i] == x);
                    }
                }
                if pre.contains(x) {
                    let i = choose|i: int| 0 <= i < pre.len() && pre[i] == x;
                    assert(next[i] == x);
                }
                if x == ws[j as int] {
                    assert(next[j as int] == x);
                }
            }
            assert(counts.deep_view() =~= Map::new(
                |x: Seq<char>| next.contains(x),
                |x: Seq<char>| occurrences(next, x) as usize,
            ));
        }
        j += 1;
    }
    assert(ws.take(words@.len() as int) =~= ws);
    counts
}

/// Consecutive pairs of the lower-cased word tokens of `input`.
pub fn word_bigrams(input: &str) -> (r: Vec<(String, String)>)
    ensures
        r@.len() == if lower_words(input@).len() > 0 { lower_words(input@).len() - 1 } else { 0 },
        forall|j: int|
            0 <= j < r@.len() ==> (#[trigger] r@[j]).0@ == lower_words(input@)[j] && r@[j].1@ == lower_words(input@)[j + 1],
{
    let tokens = wordpunct_tokens(input);
    let words = lower_word_list(&tokens, Ghost(input@));
    let mut out: Vec<(String, String)> = Vec::new();
    let pairs: usize = if words.len() > 0 { words.len() - 1 } else { 0 };
    let mut j: usize = 0;
    while j < pairs
        invariant
            words@.len() == lower_words(input@).len(),
            forall|q: int| 0 <= q < words@.len() ==> (#[trigger] words@[q])@ == lower_words(input@)[q],
            pairs == if words@.len() > 0 { words@.len() - 1 } else { 0 },
            j <= pairs,
            out@.len() == j,
            forall|q: int|
                0 <= q < j ==> (#[trigger] out@[q]).0@ == lower_words(input@)[q] && out@[q].1@ == lower_words(input@)[q + 1],
        decreases pairs - j,
    {
        let a = words[j].clone();
        let b = words[j + 1].clone();
        out.push((a, b));
        j += 1;
    }
    out
}

/// Position-weighted checksum of a token list, wrapping at 2^64.
pub open spec fn token_checksum_spec(ts: Seq<Token<'_>>) -> u64
    decreases ts.len(),
{
    if ts.len() == 0 {
        0
    } else {
        let t = ts.last();
        let a = vstd::wrapping::u64_specs::wrapping_add(token_checksum_spec(ts.drop_last()), (ts.len() * t.text.len()) as u64);
        vstd::wrapping::u64_specs::wrapping_add(a, if t.kind == TokenKind::Word { 17u64 } else { 31u64 })
    }
}

/// Add, for each token, its 1-based position times its length in bytes and
/// 17 for a word or 31 for punctuation, wrapping at 2^64.
pub fn token_checksum(tokens: &[Token<'_>]) -> (r: u64)
    requires
        forall|j: int| 0 <= j < tokens@.len() ==> (j + 1) * (#[trigger] tokens@[j]).text.len() <= u64::MAX,
    ensures
        r == token_checksum_spec(tokens@),
{
    let mut out: u64 = 0;
    let mut j: usize = 0;
    while j < tokens.len()
        invariant
            j <= tokens@.len(),
            forall|q: int| 0 <= q < tokens@.len() ==> (q + 1) * (#[trigger] tokens@[q]).text.len() <= u64::MAX,
            out == token_checksum_spec(tokens@.take(j as int)),
        decreases tokens@.len() - j,
    {
        let t = tokens[j];
        let ghost next = tokens@.take(j as int + 1);
        proof {
            assert(next.drop_last() =~= tokens@.take(j as int));
            assert(next.last() == t);
            assert((j + 1) * t.text.len() <= u64::MAX);
        }
        let len = t.text.len() as u64;
        out = out.wrapping_add((j as u64 + 1) * len);
        let bonus: u64 = match t.kind {
            TokenKind::Word => 17,
            TokenKind::Punctuation => 31,
        };
        out = out.wrapping_add(bonus);
        j += 1;
    }
    assert(tokens@.take(tokens@.len() as int) =~= tokens@);
    out
}

/// The median of non-empty timing samples, as [`crate::timing::median_duration`]
/// computes it.
pub fn median_duration(samples: Vec<Duration>) -> (r: Duration)
    requires
        samples.len() > 0,
    ensures
        is_median_sample(samples@, r),
{
    timing::median_duration(samples)
}

} // verus!
