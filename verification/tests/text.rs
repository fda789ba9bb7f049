use rustlibraries::text::{lowercase_word_frequencies, word_bigrams, wordpunct_tokens, TokenKind};

#[test]
fn tokenizes_words_and_punctuation_like_wordpunct() {
    let tokens = wordpunct_tokens("Hello, Rust-world! x_1");
    let parts = tokens
        .iter()
        .map(|token| (token.text, token.kind))
        .collect::<Vec<_>>();
    assert_eq!(
        parts,
        vec![
            ("Hello", TokenKind::Word),
            (",", TokenKind::Punctuation),
            ("Rust", TokenKind::Word),
            ("-", TokenKind::Punctuation),
            ("world", TokenKind::Word),
            ("!", TokenKind::Punctuation),
            ("x_1", TokenKind::Word),
        ]
    );
}

#[test]
fn groups_punctuation_runs() {
    let tokens = wordpunct_tokens("wait... what?!");
    let parts = tokens.iter().map(|token| token.text).collect::<Vec<_>>();
    assert_eq!(parts, vec!["wait", "...", "what", "?!"]);
}

#[test]
fn counts_lowercase_word_frequencies() {
    let counts = lowercase_word_frequencies("Alpha beta ALPHA!");
    assert_eq!(counts.get("alpha"), Some(&2));
    assert_eq!(counts.get("beta"), Some(&1));
    assert!(!counts.contains_key("!"));
}

#[test]
fn builds_word_bigrams() {
    let bigrams = word_bigrams("One, two three.");
    assert_eq!(
        bigrams,
        vec![
            ("one".to_string(), "two".to_string()),
            ("two".to_string(), "three".to_string())
        ]
    );
}
