use rustlibraries::media::{append_piece, checksum, extract, normalize_whitespace, ExtractError, MediaKind};

#[test]
fn normalizes_text_and_markdown() {
    let out = extract(MediaKind::Markdown, b"# Title\n\nalpha   beta\tgamma").unwrap();
    assert_eq!(out.text, "# Title alpha beta gamma");
    assert_eq!(out.word_count, 5);
}

#[test]
fn extracts_html_text_and_entities() {
    let out = extract(
        MediaKind::Html,
        b"<main><h1>Revenue &amp; Costs</h1><p>North&nbsp;America</p></main>",
    )
    .unwrap();
    assert_eq!(out.text, "Revenue & Costs North America");
}

#[test]
fn extracts_pdf_literal_strings() {
    let pdf = b"%PDF-1.4\nBT /F1 12 Tf (Hello\\) PDF) Tj [( table) 10 ( text)] TJ ET";
    let out = extract(MediaKind::Pdf, pdf).unwrap();
    assert_eq!(out.text, "Hello) PDF table text");
}

#[test]
fn extracts_pdf_hex_strings() {
    let pdf = b"%PDF-1.4\nBT <48656c6c6f> Tj ET";
    let out = extract(MediaKind::Pdf, pdf).unwrap();
    assert_eq!(out.text, "Hello");
}

#[test]
fn rejects_binary_pdf_payloads() {
    let err = extract(MediaKind::Pdf, b"%PDF\x00binary").unwrap_err();
    assert_eq!(err, ExtractError::UnsupportedBinaryPdf);
}

#[test]
fn checksum_is_fnv1a() {
    assert_eq!(checksum(b""), 14695981039346656037);
    assert_eq!(checksum(b"a"), 0xaf63dc4c8601ec8c);
    assert_eq!(checksum(b"foobar"), 0x85944171f73967e8);
}

#[test]
fn summary_counts_bytes_words_and_hashes_text() {
    let out = extract(MediaKind::Text, "  caf\u{e9}  au   lait ".as_bytes()).unwrap();
    assert_eq!(out.text, "caf\u{e9} au lait");
    assert_eq!(out.byte_len, 13);
    assert_eq!(out.word_count, 3);
    assert_eq!(out.checksum, checksum("caf\u{e9} au lait".as_bytes()));
}

#[test]
fn normalize_whitespace_collapses_runs() {
    assert_eq!(normalize_whitespace("\t a \n\u{a0} b  "), "a b");
    assert_eq!(normalize_whitespace("   "), "");
    assert_eq!(normalize_whitespace(&normalize_whitespace(" x  y ")), "x y");
}

#[test]
fn invalid_utf8_is_refused() {
    assert_eq!(extract(MediaKind::Text, &[0xff, 0x41]).unwrap_err(), ExtractError::InvalidUtf8);
    assert_eq!(extract(MediaKind::Html, &[0xc3]).unwrap_err(), ExtractError::InvalidUtf8);
    assert_eq!(ExtractError::InvalidUtf8.message(), "input is not valid UTF-8");
}

#[test]
fn html_unknown_and_overlong_references() {
    let out = extract(MediaKind::Html, b"a &bogus; b &lt;tag&gt; &quot;q&quot; &apos;").unwrap();
    assert_eq!(out.text, "a b <tag> \"q\" '");
    let out = extract(MediaKind::Html, b"x &abcdefghijklmn end").unwrap();
    assert_eq!(out.text, "x &abcdefghijklmn end");
}

#[test]
fn pdf_nested_and_escaped_literals() {
    let out = extract(MediaKind::Pdf, b"(a (b) c) (x\\ty) <<dict>> <4869 3> ()").unwrap();
    assert_eq!(out.text, "a (b) c x y \u{fffd} Hi0");
}

#[test]
fn append_piece_separates_with_space() {
    let mut out: Vec<char> = vec![];
    append_piece(&mut out, &vec!['a']);
    append_piece(&mut out, &vec![]);
    append_piece(&mut out, &vec!['b', 'c']);
    assert_eq!(out, vec!['a', ' ', 'b', 'c']);
}

#[test]
fn extracted_texts_compare_by_fields() {
    let a = extract(MediaKind::Text, b"a  b").unwrap();
    let b = extract(MediaKind::Markdown, b" a\nb ").unwrap();
    assert_eq!(a, b);
    assert_ne!(a, extract(MediaKind::Text, b"a c").unwrap());
}
