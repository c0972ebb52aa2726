use skaf::lex::{Lexer, LexicalToken, LexicalTokenVariant};

fn tokens(src: &str) -> Vec<LexicalToken> {
    let mut lexer = Lexer::new(src);
    let mut out = Vec::new();
    while let Some(t) = lexer.next() {
        out.push(t);
    }
    out
}

fn tok(line: usize, col: usize, variant: LexicalTokenVariant) -> LexicalToken {
    LexicalToken { line, col, variant }
}

#[test]
fn object_tokens_with_positions() {
    let got = tokens("namespace a {\n    name: \"x\"\n}");
    let want = vec![
        tok(0, 1, LexicalTokenVariant::Identifier("namespace".to_string())),
        tok(0, 11, LexicalTokenVariant::Identifier("a".to_string())),
        tok(0, 13, LexicalTokenVariant::LeftCurlyBrace),
        tok(1, 0, LexicalTokenVariant::NewLine),
        tok(1, 5, LexicalTokenVariant::Identifier("name".to_string())),
        tok(1, 9, LexicalTokenVariant::Colon),
        tok(1, 11, LexicalTokenVariant::String("x".to_string())),
        tok(2, 0, LexicalTokenVariant::NewLine),
        tok(2, 1, LexicalTokenVariant::RightCurlyBrace),
    ];
    assert_eq!(got, want);
}

#[test]
fn punctuation_tokens() {
    let got = tokens("?.()[]");
    let want = vec![
        tok(0, 1, LexicalTokenVariant::Query),
        tok(0, 2, LexicalTokenVariant::Dot),
        tok(0, 3, LexicalTokenVariant::LeftPeren),
        tok(0, 4, LexicalTokenVariant::RightPeren),
        tok(0, 5, LexicalTokenVariant::LeftSquareBrace),
        tok(0, 6, LexicalTokenVariant::RightSquareBrace),
    ];
    assert_eq!(got, want);
}

#[test]
fn identifier_stops_at_separators_and_keeps_dashes() {
    let got = tokens("edge-link.name\tx_1:y");
    let want = vec![
        tok(0, 1, LexicalTokenVariant::Identifier("edge-link".to_string())),
        tok(0, 10, LexicalTokenVariant::Dot),
        tok(0, 11, LexicalTokenVariant::Identifier("name".to_string())),
        tok(0, 16, LexicalTokenVariant::Identifier("x_1".to_string())),
        tok(0, 19, LexicalTokenVariant::Colon),
        tok(0, 20, LexicalTokenVariant::Identifier("y".to_string())),
    ];
    assert_eq!(got, want);
}

#[test]
fn string_escapes() {
    let got = tokens("\"a\\nb\\\\c\\'d\\qe\"");
    assert_eq!(got, vec![tok(0, 1, LexicalTokenVariant::String("a\nb\\c'd\\qe".to_string()))]);
}

#[test]
fn escaped_quote_does_not_end_a_string() {
    let got = tokens("\"a\\\"b\"");
    assert_eq!(got, vec![tok(0, 1, LexicalTokenVariant::String("a\\\"b".to_string()))]);
}

#[test]
fn unterminated_string_ends_the_tokens() {
    let got = tokens("a \"bc");
    assert_eq!(got, vec![tok(0, 1, LexicalTokenVariant::Identifier("a".to_string()))]);
}

#[test]
fn backslash_before_line_feed_joins_lines() {
    let got = tokens("a \\\nb");
    let want = vec![
        tok(0, 1, LexicalTokenVariant::Identifier("a".to_string())),
        tok(1, 1, LexicalTokenVariant::Identifier("b".to_string())),
    ];
    assert_eq!(got, want);
}

#[test]
fn other_characters_are_skipped() {
    let got = tokens("1 + 2 , a");
    assert_eq!(got, vec![tok(0, 9, LexicalTokenVariant::Identifier("a".to_string()))]);
}

#[test]
fn identifier_slice_counts_bytes_of_wide_characters() {
    // The identifier's text is sliced by byte offsets taken from character
    // positions, so a wide character before it shifts the slice.
    let got = tokens("\u{e9} a");
    assert_eq!(got, vec![tok(0, 3, LexicalTokenVariant::Identifier(" a".to_string()))]);
}

#[test]
fn empty_source_has_no_tokens() {
    assert_eq!(tokens(""), Vec::<LexicalToken>::new());
    assert_eq!(tokens("   \t  "), Vec::<LexicalToken>::new());
}

#[test]
fn token_text() {
    assert_eq!(LexicalTokenVariant::Identifier("abc".to_string()).to_string(), "abc");
    assert_eq!(LexicalTokenVariant::String("abc".to_string()).to_string(), "\"abc\"");
    assert_eq!(LexicalTokenVariant::LeftCurlyBrace.to_string(), "{");
    assert_eq!(LexicalTokenVariant::RightCurlyBrace.to_string(), "}");
    assert_eq!(LexicalTokenVariant::Colon.to_string(), ":");
    assert_eq!(LexicalTokenVariant::NewLine.to_string(), "\n");
    assert_eq!(LexicalTokenVariant::Query.to_string(), "?");
    assert_eq!(LexicalTokenVariant::Dot.to_string(), ".");
    assert_eq!(LexicalTokenVariant::LeftPeren.to_string(), "(");
    assert_eq!(LexicalTokenVariant::RightPeren.to_string(), ")");
    assert_eq!(LexicalTokenVariant::LeftSquareBrace.to_string(), "[");
    assert_eq!(LexicalTokenVariant::RightSquareBrace.to_string(), "]");
}

#[test]
fn duplicate_lexer_continues_from_the_same_place() {
    let mut a = Lexer::new("x y z");
    let first = a.next();
    let mut b = a.duplicate();
    assert_eq!(first, Some(tok(0, 1, LexicalTokenVariant::Identifier("x".to_string()))));
    assert_eq!(a.next(), b.next());
    assert_eq!(a.next(), b.next());
    assert_eq!(a.next(), None);
}

#[test]
fn try_next_refuses_a_cut_identifier_and_stays() {
    let mut lexer = Lexer::new("\u{e9}\u{e9} a");
    assert_eq!(lexer.try_next(), Err(()));
    assert_eq!(lexer.try_next(), Err(()));
    let mut clean = Lexer::new("a {");
    assert_eq!(
        clean.try_next(),
        Ok(Some(tok(0, 1, LexicalTokenVariant::Identifier("a".to_string()))))
    );
    assert_eq!(clean.try_next(), Ok(Some(tok(0, 3, LexicalTokenVariant::LeftCurlyBrace))));
    assert_eq!(clean.try_next(), Ok(None));
}

#[test]
fn token_text_lexes_back_to_the_token() {
    let variants = vec![
        LexicalTokenVariant::Identifier("edge-link_1".to_string()),
        LexicalTokenVariant::String("plain text".to_string()),
        LexicalTokenVariant::LeftCurlyBrace,
        LexicalTokenVariant::RightCurlyBrace,
        LexicalTokenVariant::Colon,
        LexicalTokenVariant::NewLine,
        LexicalTokenVariant::Dot,
        LexicalTokenVariant::Query,
        LexicalTokenVariant::LeftPeren,
        LexicalTokenVariant::RightPeren,
        LexicalTokenVariant::LeftSquareBrace,
        LexicalTokenVariant::RightSquareBrace,
    ];
    for v in variants {
        let text = v.to_string();
        let got: Vec<LexicalTokenVariant> = tokens(&text).into_iter().map(|t| t.variant).collect();
        assert_eq!(got, vec![v]);
    }
}

#[test]
fn token_places_follow_line_feeds() {
    let got = tokens("a\n  b\n\nc");
    let places: Vec<(usize, usize)> = got.iter().map(|t| (t.line, t.col)).collect();
    assert_eq!(places, vec![(0, 1), (1, 0), (1, 3), (2, 0), (3, 0), (3, 1)]);
}

#[test]
fn identifier_stops_at_unicode_white_space_only() {
    let got = tokens("ab\u{3000}");
    assert_eq!(got, vec![tok(0, 1, LexicalTokenVariant::Identifier("ab".to_string()))]);
    let got = tokens("ab\u{2060}");
    assert_eq!(got, vec![tok(0, 1, LexicalTokenVariant::Identifier("ab\u{2060}".to_string()))]);
    let got = tokens("ab\u{85}");
    assert_eq!(got, vec![tok(0, 1, LexicalTokenVariant::Identifier("ab".to_string()))]);
}
