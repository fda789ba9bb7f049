//! Plain-text extraction from text, Markdown, HTML and text-readable PDF bytes.
use vstd::prelude::*;
use vstd::utf8::*;
use crate::text::{chars_of, is_space, is_white_space};
use crate::display::string_from_chars;

use std::time::Duration;
use crate::timing::{self, is_median_sample};

verus! {

/// The kind of document handed to [`extract`].
#[derive(Debug, Clone, Copy, PartialEq, Eq, Structural)]
pub enum MediaKind {
    Text,
    Markdown,
    Html,
    Pdf,
}

/// Why a document could not be read.
#[derive(Debug, Clone, PartialEq, Eq, Structural)]
pub enum ExtractError {
    InvalidUtf8,
    UnsupportedBinaryPdf,
}

impl ExtractError {
    /// The error's description.
    pub fn message(&self) -> (r: &'static str)
        ensures
            r@ == (match self {
                ExtractError::InvalidUtf8 => "input is not valid UTF-8"@,
                ExtractError::UnsupportedBinaryPdf => "only text-readable PDF streams are supported"@,
            }),
    {
        match self {
            ExtractError::InvalidUtf8 => "input is not valid UTF-8",
            ExtractError::UnsupportedBinaryPdf => "only text-readable PDF streams are supported",
        }
    }
}

/// Extracted, whitespace-normalised text with its byte length, word count and
/// FNV-1a checksum of its UTF-8 bytes.
#[derive(Debug, Clone)]
pub struct ExtractedText {
    pub text: String,
    pub byte_len: usize,
    pub word_count: usize,
    pub checksum: u64,
}

impl PartialEq for ExtractedText {
    fn eq(&self, other: &Self) -> (r: bool) {
        self.text.eq(&other.text) && self.byte_len == other.byte_len && self.word_count == other.word_count
            && self.checksum == other.checksum
    }
}

impl Eq for ExtractedText {}

impl vstd::std_specs::cmp::PartialEqSpecImpl for ExtractedText {
    open spec fn obeys_eq_spec() -> bool {
        true
    }

    open spec fn eq_spec(&self, other: &Self) -> bool {
        self.text@ == other.text@ && self.byte_len == other.byte_len && self.word_count == other.word_count
            && self.checksum == other.checksum
    }
}

pub open spec fn fnv_offset() -> u64 {
    14695981039346656037u64
}

pub open spec fn fnv_prime() -> u64 {
    1099511628211u64
}

/// FNV-1a over `bytes`: xor each byte into the hash, then multiply by the
/// prime modulo 2^64.
pub open spec fn fnv1a(bytes: Seq<u8>) -> u64
    decreases bytes.len(),
{
    if bytes.len() == 0 {
        fnv_offset()
    } else {
        vstd::wrapping::u64_specs::wrapping_mul(fnv1a(bytes.drop_last()) ^ (bytes.last() as u64), fnv_prime())
    }
}

/// The 64-bit FNV-1a hash of `bytes`.
pub fn checksum(bytes: &[u8]) -> (r: u64)
    ensures
        r == fnv1a(bytes@),
{
    let mut hash: u64 = 14695981039346656037u64;
    let mut i: usize = 0;
    while i < bytes.len()
        invariant
            i <= bytes.len(),
            hash == fnv1a(bytes@.take(i as int)),
        decreases bytes.len() - i,
    {
        assert(bytes@.take(i + 1).drop_last() =~= bytes@.take(i as int));
        hash = (hash ^ (bytes[i] as u64)).wrapping_mul(1099511628211u64);
        i = i + 1;
    }
    assert(bytes@.take(i as int) =~= bytes@);
    hash
}

/// Folding whitespace over `s` left to right: the text so far, and whether a
/// single space is owed before the next non-whitespace character (whitespace
/// before the first such character owes none).
pub open spec fn fold_whitespace(s: Seq<char>) -> (Seq<char>, bool)
    decreases s.len(),
{
    if s.len() == 0 {
        (Seq::empty(), false)
    } else {
        let (out, pending) = fold_whitespace(s.drop_last());
        let c = s.last();
        if is_white_space(c) {
            (out, out.len() > 0)
        } else if pending {
            (out.push(' ').push(c), false)
        } else {
            (out.push(c), false)
        }
    }
}

/// `s` with leading and trailing whitespace dropped and every inner run of
/// whitespace replaced by one space.
pub open spec fn normalized(s: Seq<char>) -> Seq<char> {
    fold_whitespace(s).0
}

/// Whether a word starts at position `i` of `s`.
pub open spec fn word_starts_at(s: Seq<char>, i: int) -> bool {
    !is_white_space(s[i]) && (i == 0 || is_white_space(s[i - 1]))
}

/// The number of maximal runs of non-whitespace characters in `s`.
pub open spec fn word_count(s: Seq<char>) -> nat
    decreases s.len(),
{
    if s.len() == 0 {
        0
    } else {
        word_count(s.drop_last()) + if word_starts_at(s, s.len() - 1) {
            1nat
        } else {
            0nat
        }
    }
}

/// Every whitespace character of `t` is a single space with a
/// non-whitespace character on each side.
pub open spec fn tidy(t: Seq<char>) -> bool {
    forall|i: int|
        0 <= i < t.len() && #[trigger] is_white_space(t[i]) ==> t[i] == ' ' && 0 < i < t.len() - 1
            && !is_white_space(t[i - 1]) && !is_white_space(t[i + 1])
}

/// Every whitespace character of `t` is a space that follows a non-whitespace
/// character, and none follows a space; a tidy text and its prefixes are so.
pub open spec fn tidy_prefix(t: Seq<char>) -> bool {
    forall|i: int|
        0 <= i < t.len() && #[trigger] is_white_space(t[i]) ==> t[i] == ' ' && 0 < i && !is_white_space(t[i - 1])
}

proof fn lemma_fold_facts(s: Seq<char>)
    ensures
        ({
            let (out, pending) = fold_whitespace(s);
            &&& tidy_prefix(out)
            &&& out.len() > 0 ==> !is_white_space(out.last())
            &&& (out.len() == 0 <==> forall|k: int| 0 <= k < s.len() ==> is_white_space(#[trigger] s[k]))
            &&& (pending <==> out.len() > 0 && s.len() > 0 && is_white_space(s.last()))
            &&& word_count(out) == word_count(s)
        }),
    decreases s.len(),
{
    if s.len() > 0 {
        let p = s.drop_last();
        let c = s.last();
        lemma_fold_facts(p);
        let (out, pending) = fold_whitespace(p);
        if is_white_space(c) {
            if out.len() == 0 {
                assert forall|k: int| 0 <= k < s.len() implies is_white_space(#[trigger] s[k]) by {
                    if k < p.len() {
                        assert(s[k] == p[k]);
                    }
                }
            } else {
                assert(exists|k: int| 0 <= k < p.len() && !is_white_space(#[trigger] p[k]));
                let k = choose|k: int| 0 <= k < p.len() && !is_white_space(#[trigger] p[k]);
                assert(s[k] == p[k]);
            }
        } else {
            let o2 = fold_whitespace(s).0;
            if pending {
                let o1 = out.push(' ');
                assert(o2 == o1.push(c));
                assert(o1.drop_last() == out);
                assert(o2.drop_last() == o1);
                assert(word_count(o1) == word_count(out));
                assert(word_starts_at(o2, o2.len() - 1));
                assert(word_starts_at(s, s.len() - 1));
                assert forall|i: int| 0 <= i < o2.len() && #[trigger] is_white_space(o2[i]) implies o2[i] == ' '
                    && 0 < i && !is_white_space(o2[i - 1]) by {
                    if i < out.len() {
                        assert(o2[i] == out[i]);
                        if i > 0 {
                            assert(o2[i - 1] == out[i - 1]);
                        }
                    } else if i == out.len() {
                        assert(o2[i - 1] == out.last());
                    }
                }
            } else {
                assert(o2 == out.push(c));
                assert(o2.drop_last() == out);
                if out.len() == 0 {
                    assert(word_starts_at(o2, o2.len() - 1));
                    assert forall|k: int| 0 <= k < p.len() implies is_white_space(#[trigger] p[k]) by {
                        assert(p[k] == s[k]);
                    }
                    assert(word_starts_at(s, s.len() - 1));
                } else {
                    assert(!word_starts_at(o2, o2.len() - 1));
                    assert(!word_starts_at(s, s.len() - 1));
                }
                assert forall|i: int| 0 <= i < o2.len() && #[trigger] is_white_space(o2[i]) implies o2[i] == ' '
                    && 0 < i && !is_white_space(o2[i - 1]) by {
                    if i < out.len() {
                        assert(o2[i] == out[i]);
                        if i > 0 {
                            assert(o2[i - 1] == out[i - 1]);
                        }
                    }
                }
            }
            assert(!(forall|k: int| 0 <= k < s.len() ==> is_white_space(#[trigger] s[k]))) by {
                assert(s[s.len() - 1] == c);
            }
        }
    }
}

proof fn lemma_fold_tidy_prefix(t: Seq<char>)
    requires
        tidy_prefix(t),
    ensures
        fold_whitespace(t) == (if t.len() > 0 && t.last() == ' ' {
            (t.drop_last(), true)
        } else {
            (t, false)
        }),
    decreases t.len(),
{
    if t.len() > 0 {
        let u = t.drop_last();
        let c = t.last();
        assert forall|i: int| 0 <= i < u.len() && #[trigger] is_white_space(u[i]) implies u[i] == ' ' && 0 < i
            && !is_white_space(u[i - 1]) by {
            assert(u[i] == t[i]);
            if i > 0 {
                assert(u[i - 1] == t[i - 1]);
            }
        }
        lemma_fold_tidy_prefix(u);
        if is_white_space(c) {
            assert(t[t.len() - 1] == c);
            assert(u.last() == t[t.len() - 2]);
        } else if u.len() > 0 && u.last() == ' ' {
            assert(u.drop_last().push(' ') == u);
            assert(u.push(c) == t);
        } else {
            assert(u.push(c) == t);
            assert(t.last() == c);
        }
    }
}

/// Normalised text is tidy: no leading or trailing whitespace, and every inner
/// gap is one space. Normalising it again leaves it as it is, and it has as
/// many words as the text it came from.
pub proof fn lemma_normalized(s: Seq<char>)
    ensures
        tidy(normalized(s)),
        normalized(normalized(s)) == normalized(s),
        word_count(normalized(s)) == word_count(s),
{
    lemma_fold_facts(s);
    let t = normalized(s);
    assert forall|i: int| 0 <= i < t.len() && #[trigger] is_white_space(t[i]) implies t[i] == ' ' && 0 < i < t.len()
        - 1 && !is_white_space(t[i - 1]) && !is_white_space(t[i + 1]) by {
        if i == t.len() - 1 {
            assert(t.last() == t[i]);
        }
        if i + 1 < t.len() && is_white_space(t[i + 1]) {
            assert(t[i + 1] == ' ' && !is_white_space(t[i]));
        }
    }
    lemma_fold_tidy_prefix(t);
}

fn normalize_chars(chars: &Vec<char>) -> (r: Vec<char>)
    ensures
        r@ == normalized(chars@),
{
    let mut out: Vec<char> = Vec::new();
    let mut pending = false;
    let mut i: usize = 0;
    while i < chars.len()
        invariant
            i <= chars.len(),
            (out@, pending) == fold_whitespace(chars@.take(i as int)),
        decreases chars.len() - i,
    {
        assert(chars@.take(i + 1).drop_last() =~= chars@.take(i as int));
        let c = chars[i];
        if is_space(c) {
            pending = out.len() > 0;
        } else {
            if pending {
                out.push(' ');
                pending = false;
            }
            out.push(c);
        }
        i = i + 1;
    }
    assert(chars@.take(i as int) =~= chars@);
    out
}

/// Drop leading and trailing whitespace and replace every inner run of
/// whitespace with a single space.
pub fn normalize_whitespace(input: &str) -> (r: String)
    ensures
        r@ == normalized(input@),
{
    let chars = chars_of(input);
    let out = normalize_chars(&chars);
    string_from_chars(&out)
}

fn count_words(chars: &Vec<char>) -> (r: usize)
    ensures
        r == word_count(chars@),
{
    let mut n: usize = 0;
    let mut i: usize = 0;
    while i < chars.len()
        invariant
            i <= chars.len(),
            n == word_count(chars@.take(i as int)),
            n <= i,
        decreases chars.len() - i,
    {
        let ghost t = chars@.take(i + 1);
        assert(t.drop_last() =~= chars@.take(i as int));
        if !is_space(chars[i]) && (i == 0 || is_space(chars[i - 1])) {
            n = n + 1;
        }
        i = i + 1;
    }
    assert(chars@.take(i as int) =~= chars@);
    n
}

/// What [`extract`] reports for the normalised text `t`.
pub open spec fn summary_of(r: ExtractedText, t: Seq<char>) -> bool {
    &&& r.text@ == t
    &&& r.byte_len == encode_utf8(t).len()
    &&& r.word_count == word_count(t)
    &&& r.checksum == fnv1a(encode_utf8(t))
}

fn summarize(text: String) -> (r: ExtractedText)
    ensures
        summary_of(r, text@),
{
    let chars = chars_of(text.as_str());
    let word_count = count_words(&chars);
    let bytes = text.as_str().as_bytes();
    let byte_len = bytes.len();
    let sum = checksum(bytes);
    ExtractedText { text, byte_len, word_count, checksum: sum }
}

/// `std::str::from_utf8`: the text whose UTF-8 encoding is `bytes`, or `None`
/// when `bytes` is not valid UTF-8.
#[verifier::external_body]
fn utf8_str(bytes: &[u8]) -> (r: Option<&str>)
    ensures
        r is Some <==> valid_utf8(bytes@),
        r matches Some(s) ==> encode_utf8(s@) == bytes@,
{
    match std::str::from_utf8(bytes) {
        Ok(s) => Some(s),
        Err(_) => None,
    }
}

/// The characters that `bytes` encode, or `None` when `bytes` is not valid UTF-8.
fn decode_chars(bytes: &[u8]) -> (r: Option<Vec<char>>)
    ensures
        r is Some <==> valid_utf8(bytes@),
        r matches Some(v) ==> v@ == decode_utf8(bytes@),
{
    match utf8_str(bytes) {
        Some(s) => {
            proof {
                encode_utf8_decode_utf8(s@);
            }
            Some(chars_of(s))
        },
        None => None,
    }
}

/// The number of bytes in the UTF-8 encoding of `c`.
fn utf8_width(c: char) -> (r: usize)
    ensures
        r == encode_scalar(c as u32).len(),
{
    let v = c as u32;
    proof {
        char_is_scalar(c);
    }
    if v <= 0x7f {
        1
    } else if v <= 0x7ff {
        2
    } else if v <= 0xffff {
        3
    } else {
        4
    }
}

proof fn lemma_encode_push(s: Seq<char>, c: char)
    ensures
        encode_utf8(s.push(c)) == encode_utf8(s) + encode_scalar(c as u32),
    decreases s.len(),
{
    if s.len() == 0 {
        assert(s.push(c).drop_first() =~= Seq::<char>::empty());
        assert(encode_utf8(s.push(c).drop_first()) == Seq::<u8>::empty());
        assert(encode_utf8(s) == Seq::<u8>::empty());
        assert(s.push(c)[0] == c);
        assert(encode_utf8(s.push(c)) =~= encode_utf8(s) + encode_scalar(c as u32));
    } else {
        assert(s.push(c).drop_first() =~= s.drop_first().push(c));
        lemma_encode_push(s.drop_first(), c);
        assert(encode_utf8(s.push(c)) =~= encode_utf8(s) + encode_scalar(c as u32));
    }
}

/// The text that a character reference between `&` and `;` stands for: the six
/// named references that are understood, and nothing for any other.
pub open spec fn entity_text(e: Seq<char>) -> Seq<char> {
    if e == seq!['a', 'm', 'p'] {
        seq!['&']
    } else if e == seq!['l', 't'] {
        seq!['<']
    } else if e == seq!['g', 't'] {
        seq!['>']
    } else if e == seq!['q', 'u', 'o', 't'] {
        seq!['"']
    } else if e == seq!['a', 'p', 'o', 's'] {
        seq!['\'']
    } else if e == seq!['n', 'b', 's', 'p'] {
        seq![' ']
    } else {
        Seq::empty()
    }
}

/// The longest reference name, in UTF-8 bytes, that is still collected; one
/// character more ends the reference and it is copied out as text.
pub open spec fn entity_limit() -> nat {
    12
}

/// The HTML scanner's state: text so far, inside a tag, inside a character
/// reference, and the reference's name so far.
pub type HtmlScan = (Seq<char>, bool, bool, Seq<char>);

/// One character of HTML. Tags are dropped and leave a space where they close;
/// a reference `&name;` becomes its text, and one whose name grows past the
/// limit is kept as written.
pub open spec fn html_step(st: HtmlScan, c: char) -> HtmlScan {
    let (out, in_tag, in_entity, entity) = st;
    if in_tag {
        if c == '>' {
            (out.push(' '), false, in_entity, entity)
        } else {
            st
        }
    } else if in_entity {
        if c == ';' {
            (out + entity_text(entity), false, false, Seq::empty())
        } else if encode_utf8(entity).len() < entity_limit() {
            (out, false, true, entity.push(c))
        } else {
            ((out.push('&') + entity).push(c), false, false, Seq::empty())
        }
    } else if c == '<' {
        (out, true, false, entity)
    } else if c == '&' {
        (out, false, true, entity)
    } else {
        (out.push(c), false, false, entity)
    }
}

/// The scanner's state after the characters of `s`.
pub open spec fn html_scan(s: Seq<char>) -> HtmlScan
    decreases s.len(),
{
    if s.len() == 0 {
        (Seq::empty(), false, false, Seq::empty())
    } else {
        html_step(html_scan(s.drop_last()), s.last())
    }
}

/// The text of the HTML document `s`; a reference left open at the end is kept
/// as written.
pub open spec fn html_text(s: Seq<char>) -> Seq<char> {
    let (out, _, in_entity, entity) = html_scan(s);
    if in_entity {
        out.push('&') + entity
    } else {
        out
    }
}

fn push_all(out: &mut Vec<char>, s: &Vec<char>)
    ensures
        final(out)@ == old(out)@ + s@,
{
    let mut i: usize = 0;
    while i < s.len()
        invariant
            i <= s.len(),
            out@ == old(out)@ + s@.take(i as int),
        decreases s.len() - i,
    {
        out.push(s[i]);
        i = i + 1;
        assert(out@ =~= old(out)@ + s@.take(i as int));
    }
    assert(s@.take(i as int) =~= s@);
}

fn decode_entity(e: &Vec<char>) -> (r: Vec<char>)
    ensures
        r@ == entity_text(e@),
{
    let n = e.len();
    if n == 3 && e[0] == 'a' && e[1] == 'm' && e[2] == 'p' {
        assert(e@ =~= seq!['a', 'm', 'p']);
        vec!['&']
    } else if n == 2 && e[0] == 'l' && e[1] == 't' {
        assert(e@ =~= seq!['l', 't']);
        vec!['<']
    } else if n == 2 && e[0] == 'g' && e[1] == 't' {
        assert(e@ =~= seq!['g', 't']);
        vec!['>']
    } else if n == 4 && e[0] == 'q' && e[1] == 'u' && e[2] == 'o' && e[3] == 't' {
        assert(e@ =~= seq!['q', 'u', 'o', 't']);
        vec!['"']
    } else if n == 4 && e[0] == 'a' && e[1] == 'p' && e[2] == 'o' && e[3] == 's' {
        assert(e@ =~= seq!['a', 'p', 'o', 's']);
        vec!['\'']
    } else if n == 4 && e[0] == 'n' && e[1] == 'b' && e[2] == 's' && e[3] == 'p' {
        assert(e@ =~= seq!['n', 'b', 's', 'p']);
        vec![' ']
    } else {
        Vec::new()
    }
}

fn html_chars(chars: &Vec<char>) -> (r: Vec<char>)
    ensures
        r@ == html_text(chars@),
{
    let mut out: Vec<char> = Vec::new();
    let mut in_tag = false;
    let mut in_entity = false;
    let mut entity: Vec<char> = Vec::new();
    let mut entity_bytes: usize = 0;
    let mut i: usize = 0;
    while i < chars.len()
        invariant
            i <= chars.len(),
            html_scan(chars@.take(i as int)) == (out@, in_tag, in_entity, entity@),
            entity_bytes == encode_utf8(entity@).len(),
            entity_bytes < entity_limit() + 4,
        decreases chars.len() - i,
    {
        assert(chars@.take(i + 1).drop_last() =~= chars@.take(i as int));
        let c = chars[i];
        if in_tag {
            if c == '>' {
                in_tag = false;
                out.push(' ');
            }
        } else if in_entity {
            if c == ';' {
                let text = decode_entity(&entity);
                push_all(&mut out, &text);
                entity = Vec::new();
                entity_bytes = 0;
                in_entity = false;
            } else if entity_bytes < 12 {
                proof {
                    lemma_encode_push(entity@, c);
                }
                entity_bytes = entity_bytes + utf8_width(c);
                entity.push(c);
            } else {
                out.push('&');
                push_all(&mut out, &entity);
                out.push(c);
                entity = Vec::new();
                entity_bytes = 0;
                in_entity = false;
            }
        } else if c == '<' {
            in_tag = true;
        } else if c == '&' {
            in_entity = true;
        } else {
            out.push(c);
        }
        i = i + 1;
    }
    assert(chars@.take(i as int) =~= chars@);
    if in_entity {
        out.push('&');
        push_all(&mut out, &entity);
    }
    out
}

/// The character a PDF string escape `\x` stands for: `n`, `r`, `t`, `b` and
/// `f` name control characters, and any other byte stands for itself.
pub open spec fn pdf_escape(b: u8) -> char {
    if b == 0x6eu8 {
        '\n'
    } else if b == 0x72u8 {
        '\r'
    } else if b == 0x74u8 {
        '\t'
    } else if b == 0x62u8 {
        '\u{8}'
    } else if b == 0x66u8 {
        '\u{c}'
    } else {
        b as char
    }
}

/// Reading a PDF literal string from position `i`, inside `depth` open
/// parentheses: its characters and the position just past its closing
/// parenthesis (or the end of the input). Nested parentheses are kept, and
/// each byte outside an escape is read as the character of that code.
pub open spec fn literal_from(bytes: Seq<u8>, i: int, depth: nat) -> (Seq<char>, int)
    decreases bytes.len() - i,
{
    if i < 0 || i >= bytes.len() {
        (Seq::empty(), i)
    } else if bytes[i] == 0x5cu8 && i + 1 < bytes.len() {
        let (rest, end) = literal_from(bytes, i + 2, depth);
        (seq![pdf_escape(bytes[i + 1])] + rest, end)
    } else if bytes[i] == 0x28u8 {
        let (rest, end) = literal_from(bytes, i + 1, depth + 1);
        (seq!['('] + rest, end)
    } else if bytes[i] == 0x29u8 {
        if depth <= 1 {
            (Seq::empty(), i + 1)
        } else {
            let (rest, end) = literal_from(bytes, i + 1, (depth - 1) as nat);
            (seq![')'] + rest, end)
        }
    } else {
        let (rest, end) = literal_from(bytes, i + 1, depth);
        (seq![bytes[i] as char] + rest, end)
    }
}

/// Reading a literal string depends only on the bytes from where it starts.
proof fn lemma_literal_shift(a: Seq<u8>, j: int, b: Seq<u8>, k: int, depth: nat)
    requires
        0 <= j <= a.len(),
        0 <= k <= b.len(),
        a.subrange(j, a.len() as int) == b.subrange(k, b.len() as int),
    ensures
        literal_from(a, j, depth).0 == literal_from(b, k, depth).0,
        literal_from(a, j, depth).1 - j == literal_from(b, k, depth).1 - k,
    decreases a.len() - j,
{
    assert(a.subrange(j, a.len() as int).len() == a.len() - j);
    assert(a.len() - j == b.len() - k);
    if j < a.len() {
        assert(a[j] == a.subrange(j, a.len() as int)[0]);
        assert(b[k] == b.subrange(k, b.len() as int)[0]);
        if j + 1 < a.len() {
            assert(a[j + 1] == a.subrange(j, a.len() as int)[1]);
            assert(b[k + 1] == b.subrange(k, b.len() as int)[1]);
        }
        assert(a.subrange(j + 1, a.len() as int) =~= a.subrange(j, a.len() as int).subrange(1, a.len() - j));
        assert(b.subrange(k + 1, b.len() as int) =~= b.subrange(k, b.len() as int).subrange(1, b.len() - k));
        if a[j] == 0x5cu8 && j + 1 < a.len() {
            assert(a.subrange(j + 2, a.len() as int) =~= a.subrange(j, a.len() as int).subrange(2, a.len() - j));
            assert(b.subrange(k + 2, b.len() as int) =~= b.subrange(k, b.len() as int).subrange(2, b.len() - k));
            lemma_literal_shift(a, j + 2, b, k + 2, depth);
        } else if a[j] == 0x28u8 {
            lemma_literal_shift(a, j + 1, b, k + 1, depth + 1);
        } else if a[j] == 0x29u8 {
            if depth > 1 {
                lemma_literal_shift(a, j + 1, b, k + 1, (depth - 1) as nat);
            }
        } else {
            lemma_literal_shift(a, j + 1, b, k + 1, depth);
        }
    }
}

/// `bytes` with the two bytes of the escape at `i` replaced by the one byte `raw`.
pub open spec fn unescaped(bytes: Seq<u8>, i: int, raw: u8) -> Seq<u8> {
    bytes.take(i) + seq![raw] + bytes.skip(i + 2)
}

/// The escape at `i` of a literal string reads exactly as the raw byte `raw`
/// would: the same characters, ending one byte earlier in the shorter input.
pub open spec fn escape_reads_as(bytes: Seq<u8>, i: int, depth: nat, raw: u8) -> bool {
    let u = unescaped(bytes, i, raw);
    &&& literal_from(bytes, i, depth).0 == literal_from(u, i, depth).0
    &&& literal_from(bytes, i, depth).1 == literal_from(u, i, depth).1 + 1
}

/// Inside a PDF literal string, `\n`, `\r`, `\t`, `\b` and `\f` read as the
/// line feed, carriage return, tab, backspace and form feed bytes they name
/// (so `\n` separates words like a raw line break), a backslash before any
/// other byte except a parenthesis or backslash reads as that byte, and an
/// escaped parenthesis or backslash is kept as that character without
/// opening, closing or escaping anything.
pub proof fn lemma_pdf_escapes(bytes: Seq<u8>, i: int, depth: nat)
    requires
        0 <= i,
        i + 1 < bytes.len(),
        bytes[i] == 0x5cu8,
    ensures
        bytes[i + 1] == 0x6eu8 ==> escape_reads_as(bytes, i, depth, 0x0au8),
        bytes[i + 1] == 0x72u8 ==> escape_reads_as(bytes, i, depth, 0x0du8),
        bytes[i + 1] == 0x74u8 ==> escape_reads_as(bytes, i, depth, 0x09u8),
        bytes[i + 1] == 0x62u8 ==> escape_reads_as(bytes, i, depth, 0x08u8),
        bytes[i + 1] == 0x66u8 ==> escape_reads_as(bytes, i, depth, 0x0cu8),
        !(bytes[i + 1] == 0x6eu8 || bytes[i + 1] == 0x72u8 || bytes[i + 1] == 0x74u8 || bytes[i + 1] == 0x62u8
            || bytes[i + 1] == 0x66u8 || bytes[i + 1] == 0x28u8 || bytes[i + 1] == 0x29u8 || bytes[i + 1] == 0x5cu8)
            ==> escape_reads_as(bytes, i, depth, bytes[i + 1]),
        (bytes[i + 1] == 0x28u8 || bytes[i + 1] == 0x29u8 || bytes[i + 1] == 0x5cu8) ==> literal_from(bytes, i, depth)
            == (seq![bytes[i + 1] as char] + literal_from(bytes, i + 2, depth).0, literal_from(bytes, i + 2, depth).1),
{
    let x = bytes[i + 1];
    let raw: u8 = if x == 0x6eu8 {
        0x0au8
    } else if x == 0x72u8 {
        0x0du8
    } else if x == 0x74u8 {
        0x09u8
    } else if x == 0x62u8 {
        0x08u8
    } else if x == 0x66u8 {
        0x0cu8
    } else {
        x
    };
    let u = unescaped(bytes, i, raw);
    assert(u.len() == bytes.len() - 1);
    assert(u[i] == raw);
    assert(u.subrange(i + 1, u.len() as int) =~= bytes.subrange(i + 2, bytes.len() as int));
    lemma_literal_shift(bytes, i + 2, u, i + 1, depth);
    if !(raw == 0x28u8 || raw == 0x29u8 || raw == 0x5cu8) {
        assert(literal_from(u, i, depth).0 == seq![raw as char] + literal_from(u, i + 1, depth).0);
        assert(pdf_escape(x) == raw as char);
    }
}

pub proof fn lemma_literal_end(bytes: Seq<u8>, i: int, depth: nat)
    requires
        0 <= i <= bytes.len(),
    ensures
        i <= literal_from(bytes, i, depth).1 <= bytes.len(),
    decreases bytes.len() - i,
{
    if i < bytes.len() {
        if bytes[i] == 0x5cu8 && i + 1 < bytes.len() {
            lemma_literal_end(bytes, i + 2, depth);
        } else if bytes[i] == 0x28u8 {
            lemma_literal_end(bytes, i + 1, depth + 1);
        } else if bytes[i] == 0x29u8 {
            if depth > 1 {
                lemma_literal_end(bytes, i + 1, (depth - 1) as nat);
            }
        } else {
            lemma_literal_end(bytes, i + 1, depth);
        }
    }
}

pub open spec fn is_hex_digit(b: u8) -> bool {
    (0x30u8 <= b <= 0x39u8) || (0x61u8 <= b <= 0x66u8) || (0x41u8 <= b <= 0x46u8)
}

pub open spec fn hex_val(b: u8) -> int {
    if 0x30u8 <= b <= 0x39u8 {
        b - 0x30u8
    } else if 0x61u8 <= b <= 0x66u8 {
        b - 0x61u8 + 10
    } else if 0x41u8 <= b <= 0x46u8 {
        b - 0x41u8 + 10
    } else {
        0
    }
}

/// Reading a PDF hex string from position `i`: its hex digits, other bytes
/// skipped, and the position just past the closing `>` (or the end).
pub open spec fn hex_scan(bytes: Seq<u8>, i: int) -> (Seq<u8>, int)
    decreases bytes.len() - i,
{
    if i < 0 || i >= bytes.len() {
        (Seq::empty(), i)
    } else if bytes[i] == 0x3eu8 {
        (Seq::empty(), i + 1)
    } else if is_hex_digit(bytes[i]) {
        let (rest, end) = hex_scan(bytes, i + 1);
        (seq![bytes[i]] + rest, end)
    } else {
        hex_scan(bytes, i + 1)
    }
}

pub proof fn lemma_hex_end(bytes: Seq<u8>, i: int)
    requires
        0 <= i <= bytes.len(),
    ensures
        i <= hex_scan(bytes, i).1 <= bytes.len(),
        forall|k: int| 0 <= k < hex_scan(bytes, i).0.len() ==> is_hex_digit(#[trigger] hex_scan(bytes, i).0[k]),
    decreases bytes.len() - i,
{
    if i < bytes.len() && bytes[i] != 0x3eu8 {
        lemma_hex_end(bytes, i + 1);
    }
}

/// Hex digits with a `0` added when their number is odd.
pub open spec fn padded(h: Seq<u8>) -> Seq<u8> {
    if h.len() % 2 == 1 {
        h.push(0x30u8)
    } else {
        h
    }
}

/// The bytes that pairs of hex digits spell, high digit first.
pub open spec fn hex_pairs(h: Seq<u8>) -> Seq<u8> {
    Seq::new(h.len() / 2, |k: int| (hex_val(h[2 * k]) * 16 + hex_val(h[2 * k + 1])) as u8)
}

/// What `String::from_utf8_lossy` makes of `bytes`.
pub uninterp spec fn lossy_utf8(bytes: Seq<u8>) -> Seq<char>;

/// `String::from_utf8_lossy`, owned: `bytes` decoded as UTF-8 with each invalid
/// sequence replaced by U+FFFD. Its documentation states that valid input is
/// decoded as is; which replacements invalid input gets is left to the name.
#[verifier::external_body]
fn utf8_lossy(bytes: &Vec<u8>) -> (r: String)
    ensures
        r@ == lossy_utf8(bytes@),
        valid_utf8(bytes@) ==> r@ == decode_utf8(bytes@),
{
    String::from_utf8_lossy(bytes).into_owned()
}

/// A piece of text added to what was extracted so far: nothing for an empty
/// piece, and a separating space when both are non-empty.
pub open spec fn join_piece(out: Seq<char>, piece: Seq<char>) -> Seq<char> {
    if piece.len() == 0 {
        out
    } else if out.len() == 0 {
        piece
    } else {
        out.push(' ') + piece
    }
}

/// Scanning a PDF from position `i` with `out` extracted so far: literal
/// strings `( .. )` and hex strings `< .. >` (not dictionaries `<<`) each add
/// their text; every other byte is skipped.
pub open spec fn pdf_from(bytes: Seq<u8>, i: int, out: Seq<char>) -> Seq<char>
    decreases bytes.len() - i,
{
    if i < 0 || i >= bytes.len() {
        out
    } else if bytes[i] == 0x28u8 {
        let (lit, next) = literal_from(bytes, i + 1, 1);
        proof {
            lemma_literal_end(bytes, i + 1, 1);
        }
        pdf_from(bytes, next, join_piece(out, lit))
    } else if bytes[i] == 0x3cu8 && i + 1 < bytes.len() && bytes[i + 1] != 0x3cu8 {
        let (h, next) = hex_scan(bytes, i + 1);
        proof {
            lemma_hex_end(bytes, i + 1);
        }
        pdf_from(bytes, next, join_piece(out, lossy_utf8(hex_pairs(padded(h)))))
    } else {
        pdf_from(bytes, i + 1, out)
    }
}

/// The text of the string operands of a text-readable PDF.
pub open spec fn pdf_text(bytes: Seq<u8>) -> Seq<char> {
    pdf_from(bytes, 0, Seq::empty())
}

/// Add `piece` to the text extracted so far, separated by a space when both
/// are non-empty.
pub fn append_piece(out: &mut Vec<char>, piece: &Vec<char>)
    ensures
        final(out)@ == join_piece(old(out)@, piece@),
{
    if piece.len() > 0 {
        if out.len() > 0 {
            out.push(' ');
        }
        push_all(out, piece);
    }
}

fn escape_char(b: u8) -> (r: char)
    ensures
        r == pdf_escape(b),
{
    if b == 0x6eu8 {
        '\n'
    } else if b == 0x72u8 {
        '\r'
    } else if b == 0x74u8 {
        '\t'
    } else if b == 0x62u8 {
        '\u{8}'
    } else if b == 0x66u8 {
        '\u{c}'
    } else {
        b as char
    }
}

fn parse_pdf_literal(bytes: &[u8], start: usize) -> (r: (Vec<char>, usize))
    requires
        1 <= start <= bytes.len(),
    ensures
        (r.0@, r.1 as int) == literal_from(bytes@, start as int, 1),
{
    let mut out: Vec<char> = Vec::new();
    let mut depth: usize = 1;
    let mut idx = start;
    while idx < bytes.len()
        invariant
            1 <= start <= idx <= bytes.len(),
            1 <= depth <= idx - start + 1,
            literal_from(bytes@, start as int, 1) == (out@ + literal_from(bytes@, idx as int, depth as nat).0,
                literal_from(bytes@, idx as int, depth as nat).1),
        decreases bytes.len() - idx,
    {
        let ghost old_out = out@;
        let ghost d = depth as nat;
        let b = bytes[idx];
        if b == 0x5cu8 && idx + 1 < bytes.len() {
            let c = escape_char(bytes[idx + 1]);
            out.push(c);
            assert(old_out + (seq![c] + literal_from(bytes@, idx + 2, d).0) =~= out@ + literal_from(bytes@, idx + 2, d).0);
            idx = idx + 2;
        } else if b == 0x28u8 {
            depth = depth + 1;
            out.push('(');
            assert(old_out + (seq!['('] + literal_from(bytes@, idx + 1, d + 1).0) =~= out@ + literal_from(bytes@, idx + 1, d + 1).0);
            idx = idx + 1;
        } else if b == 0x29u8 {
            depth = depth - 1;
            idx = idx + 1;
            if depth == 0 {
                assert(old_out + Seq::<char>::empty() =~= out@);
                return (out, idx);
            }
            out.push(')');
            assert(old_out + (seq![')'] + literal_from(bytes@, idx as int, depth as nat).0) =~= out@ + literal_from(bytes@, idx as int, depth as nat).0);
        } else {
            let c = b as char;
            out.push(c);
            assert(old_out + (seq![c] + literal_from(bytes@, idx + 1, d).0) =~= out@ + literal_from(bytes@, idx + 1, d).0);
            idx = idx + 1;
        }
    }
    assert(out@ + Seq::<char>::empty() =~= out@);
    (out, idx)
}

fn hex_value(b: u8) -> (r: u8)
    ensures
        r == hex_val(b),
        r < 16,
{
    if 0x30u8 <= b && b <= 0x39u8 {
        b - 0x30u8
    } else if 0x61u8 <= b && b <= 0x66u8 {
        b - 0x61u8 + 10
    } else if 0x41u8 <= b && b <= 0x46u8 {
        b - 0x41u8 + 10
    } else {
        0
    }
}

fn parse_pdf_hex_string(bytes: &[u8], start: usize) -> (r: (Vec<char>, usize))
    requires
        start <= bytes.len(),
    ensures
        r.0@ == lossy_utf8(hex_pairs(padded(hex_scan(bytes@, start as int).0))),
        r.1 == hex_scan(bytes@, start as int).1,
{
    let mut hex: Vec<u8> = Vec::new();
    let mut idx = start;
    while idx < bytes.len() && bytes[idx] != 0x3eu8
        invariant
            start <= idx <= bytes.len(),
            hex_scan(bytes@, start as int) == (hex@ + hex_scan(bytes@, idx as int).0, hex_scan(bytes@, idx as int).1),
        decreases bytes.len() - idx,
    {
        let b = bytes[idx];
        if (0x30u8 <= b && b <= 0x39u8) || (0x61u8 <= b && b <= 0x66u8) || (0x41u8 <= b && b <= 0x46u8) {
            let ghost old_hex = hex@;
            hex.push(b);
            assert(old_hex + (seq![b] + hex_scan(bytes@, idx + 1).0) =~= hex@ + hex_scan(bytes@, idx + 1).0);
        }
        idx = idx + 1;
    }
    if idx < bytes.len() {
        idx = idx + 1;
    }
    assert(hex@ + Seq::<u8>::empty() =~= hex@);
    if hex.len() % 2 == 1 {
        hex.push(0x30u8);
    }
    let ghost h = hex@;
    let mut out: Vec<u8> = Vec::new();
    let mut k: usize = 0;
    while k < hex.len() / 2
        invariant
            hex@ == h,
            k <= h.len() / 2,
            out@ == hex_pairs(h).take(k as int),
        decreases hex.len() / 2 - k,
    {
        let high = hex_value(hex[2 * k]);
        let low = hex_value(hex[2 * k + 1]);
        out.push(high * 16 + low);
        k = k + 1;
        assert(out@ =~= hex_pairs(h).take(k as int));
    }
    assert(out@ =~= hex_pairs(h));
    let text = utf8_lossy(&out);
    (chars_of(text.as_str()), idx)
}

fn has_zero(bytes: &[u8]) -> (r: bool)
    ensures
        r == bytes@.contains(0u8),
{
    let mut i: usize = 0;
    while i < bytes.len()
        invariant
            i <= bytes.len(),
            forall|k: int| 0 <= k < i ==> bytes@[k] != 0u8,
        decreases bytes.len() - i,
    {
        if bytes[i] == 0 {
            return true;
        }
        i = i + 1;
    }
    false
}

fn pdf_chars(bytes: &[u8]) -> (r: Vec<char>)
    ensures
        r@ == pdf_text(bytes@),
{
    let mut out: Vec<char> = Vec::new();
    let mut idx: usize = 0;
    while idx < bytes.len()
        invariant
            idx <= bytes.len(),
            pdf_from(bytes@, idx as int, out@) == pdf_text(bytes@),
        decreases bytes.len() - idx,
    {
        if bytes[idx] == 0x28u8 {
            proof {
                lemma_literal_end(bytes@, idx + 1, 1);
            }
            let (lit, next) = parse_pdf_literal(bytes, idx + 1);
            append_piece(&mut out, &lit);
            idx = next;
        } else if bytes[idx] == 0x3cu8 && idx + 1 < bytes.len() && bytes[idx + 1] != 0x3cu8 {
            proof {
                lemma_hex_end(bytes@, idx + 1);
            }
            let (lit, next) = parse_pdf_hex_string(bytes, idx + 1);
            append_piece(&mut out, &lit);
            idx = next;
        } else {
            idx = idx + 1;
        }
    }
    out
}

/// The text a document of the given kind holds, before whitespace is
/// normalised, or the error it is refused with.
pub open spec fn raw_text(kind: MediaKind, bytes: Seq<u8>) -> Result<Seq<char>, ExtractError> {
    match kind {
        MediaKind::Text | MediaKind::Markdown => if valid_utf8(bytes) {
            Ok(decode_utf8(bytes))
        } else {
            Err(ExtractError::InvalidUtf8)
        },
        MediaKind::Html => if valid_utf8(bytes) {
            Ok(html_text(decode_utf8(bytes)))
        } else {
            Err(ExtractError::InvalidUtf8)
        },
        MediaKind::Pdf => if bytes.contains(0u8) {
            Err(ExtractError::UnsupportedBinaryPdf)
        } else {
            Ok(pdf_text(bytes))
        },
    }
}

/// Extract the text of a document: text and Markdown as they are, HTML without
/// its tags and with its character references decoded, PDF from its string
/// operands; then normalise whitespace and summarise.
pub fn extract(kind: MediaKind, bytes: &[u8]) -> (r: Result<ExtractedText, ExtractError>)
    ensures
        match raw_text(kind, bytes@) {
            Ok(t) => r matches Ok(x) && summary_of(x, normalized(t)),
            Err(e) => r == Err::<ExtractedText, ExtractError>(e),
        },
{
    let raw = match kind {
        MediaKind::Text | MediaKind::Markdown => match decode_chars(bytes) {
            Some(chars) => chars,
            None => return Err(ExtractError::InvalidUtf8),
        },
        MediaKind::Html => match decode_chars(bytes) {
            Some(chars) => html_chars(&chars),
            None => return Err(ExtractError::InvalidUtf8),
        },
        MediaKind::Pdf => {
            if has_zero(bytes) {
                return Err(ExtractError::UnsupportedBinaryPdf);
            }
            pdf_chars(bytes)
        },
    };
    let text = string_from_chars(&normalize_chars(&raw));
    Ok(summarize(text))
}

/// The median of non-empty timing samples, as [`crate::timing::median_duration`]
/// computes it.
pub fn median_duration(samples: Vec<Duration>) -> (r: Duration)
    requires
        samples.len() > 0,
    ensures
        is_median_sample(samples@, r),
{
    timing::median_duration(samples)
}

} // verus!
