use file_organizer::chars::{classify, scan, CharClass};
use file_organizer::lexer::{tokenize, tokenize_classified, LexError};
use file_organizer::token::{Symbol, TokenKind};

fn ident(text: &str) -> TokenKind {
    TokenKind::Identifier(text.to_string())
}

fn quoted(text: &str) -> TokenKind {
    TokenKind::String(text.to_string())
}

fn sym(symbol: Symbol) -> TokenKind {
    TokenKind::Symbol(symbol)
}

#[test]
fn test_rule_from_src() {
    let code = r#"
            EXT {
                pdf,doc,docx => 'Documents';
                mp3,mp4 => 'Music';
            }
        "#;
    let tokens = tokenize(code).unwrap();
    assert_eq!(
        tokens,
        vec![
            TokenKind::Space,
            ident("EXT"),
            TokenKind::Space,
            sym(Symbol::LeftCurly),
            TokenKind::Space,
            ident("pdf"),
            sym(Symbol::Comma),
            ident("doc"),
            sym(Symbol::Comma),
            ident("docx"),
            TokenKind::Space,
            sym(Symbol::Arrow),
            TokenKind::Space,
            quoted("Documents"),
            sym(Symbol::SemiColon),
            TokenKind::Space,
            ident("mp3"),
            sym(Symbol::Comma),
            ident("mp4"),
            TokenKind::Space,
            sym(Symbol::Arrow),
            TokenKind::Space,
            quoted("Music"),
            sym(Symbol::SemiColon),
            TokenKind::Space,
            sym(Symbol::RightCurly),
            TokenKind::Space,
        ]
    );
}

#[test]
fn tokenize_empty_source_gives_no_tokens() {
    assert_eq!(tokenize(""), Ok(vec![]));
}

#[test]
fn tokenize_every_symbol() {
    assert_eq!(
        tokenize("{},:;=>"),
        Ok(vec![
            sym(Symbol::LeftCurly),
            sym(Symbol::RightCurly),
            sym(Symbol::Comma),
            sym(Symbol::Colon),
            sym(Symbol::SemiColon),
            sym(Symbol::Arrow),
        ])
    );
}

#[test]
fn tokenize_collapses_runs_of_blanks() {
    assert_eq!(
        tokenize("a \t\r\n  b"),
        Ok(vec![ident("a"), TokenKind::Space, ident("b")])
    );
}

#[test]
fn tokenize_identifier_is_a_maximal_run() {
    assert_eq!(tokenize("abc123XYZ"), Ok(vec![ident("abc123XYZ")]));
    assert_eq!(
        tokenize("2020=>x"),
        Ok(vec![ident("2020"), sym(Symbol::Arrow), ident("x")])
    );
}

#[test]
fn tokenize_reads_letters_beyond_ascii() {
    assert_eq!(tokenize("caf\u{e9}"), Ok(vec![ident("caf\u{e9}")]));
    assert_eq!(tokenize("\u{4eac}7"), Ok(vec![ident("\u{4eac}7")]));
}

#[test]
fn tokenize_reads_blanks_beyond_ascii() {
    assert_eq!(
        tokenize("a\u{a0}\u{2003}b"),
        Ok(vec![ident("a"), TokenKind::Space, ident("b")])
    );
}

#[test]
fn tokenize_quoted_string_keeps_everything_up_to_the_next_quote() {
    assert_eq!(
        tokenize("'My Files, {2020}; #1'"),
        Ok(vec![quoted("My Files, {2020}; #1")])
    );
    assert_eq!(tokenize("''"), Ok(vec![quoted("")]));
}

#[test]
fn tokenize_embedded_quote_closes_the_string() {
    assert_eq!(
        tokenize("'a'b''"),
        Ok(vec![quoted("a"), ident("b"), quoted("")])
    );
    assert_eq!(tokenize("'a'b'"), Err(LexError::UnterminatedString));
}

#[test]
fn tokenize_unterminated_string() {
    assert_eq!(tokenize("'abc"), Err(LexError::UnterminatedString));
    assert_eq!(tokenize("x => '"), Err(LexError::UnterminatedString));
}

#[test]
fn tokenize_malformed_arrow() {
    assert_eq!(tokenize("a = b"), Err(LexError::MalformedArrow));
    assert_eq!(tokenize("=="), Err(LexError::MalformedArrow));
    assert_eq!(tokenize("=x"), Err(LexError::MalformedArrow));
}

#[test]
fn tokenize_input_ends_after_equals() {
    assert_eq!(tokenize("="), Err(LexError::UnexpectedEndOfInput));
    assert_eq!(tokenize("pdf ="), Err(LexError::UnexpectedEndOfInput));
}

#[test]
fn tokenize_unexpected_char() {
    assert_eq!(tokenize("#"), Err(LexError::UnexpectedChar('#')));
    assert_eq!(tokenize("a.b"), Err(LexError::UnexpectedChar('.')));
    assert_eq!(tokenize(">"), Err(LexError::UnexpectedChar('>')));
    assert_eq!(tokenize("a_b"), Err(LexError::UnexpectedChar('_')));
}

#[test]
fn tokenize_reports_the_first_error() {
    assert_eq!(tokenize("# 'open"), Err(LexError::UnexpectedChar('#')));
    assert_eq!(tokenize("'open #"), Err(LexError::UnterminatedString));
}

#[test]
fn classify_punctuation_letters_and_blanks() {
    assert_eq!(classify('{'), CharClass::LeftCurly);
    assert_eq!(classify('}'), CharClass::RightCurly);
    assert_eq!(classify(','), CharClass::Comma);
    assert_eq!(classify(':'), CharClass::Colon);
    assert_eq!(classify(';'), CharClass::SemiColon);
    assert_eq!(classify('='), CharClass::Equals);
    assert_eq!(classify('>'), CharClass::Greater);
    assert_eq!(classify('\''), CharClass::Quote);
    assert_eq!(classify('a'), CharClass::Alphanumeric);
    assert_eq!(classify('Z'), CharClass::Alphanumeric);
    assert_eq!(classify('0'), CharClass::Alphanumeric);
    assert_eq!(classify('\u{df}'), CharClass::Alphanumeric);
    assert_eq!(classify(' '), CharClass::Whitespace);
    assert_eq!(classify('\t'), CharClass::Whitespace);
    assert_eq!(classify('\n'), CharClass::Whitespace);
    assert_eq!(classify('\r'), CharClass::Whitespace);
    assert_eq!(classify('\u{c}'), CharClass::Whitespace);
    assert_eq!(classify('\u{3000}'), CharClass::Whitespace);
    assert_eq!(classify('-'), CharClass::Other);
    assert_eq!(classify('\u{20ac}'), CharClass::Other);
}

#[test]
fn scan_pairs_each_character_with_its_class() {
    assert_eq!(
        scan("a{ '"),
        vec![
            ('a', CharClass::Alphanumeric),
            ('{', CharClass::LeftCurly),
            (' ', CharClass::Whitespace),
            ('\'', CharClass::Quote),
        ]
    );
    assert_eq!(scan(""), vec![]);
}

#[test]
fn tokenize_classified_goes_by_the_given_classes() {
    let input = vec![
        ('x', CharClass::Alphanumeric),
        ('y', CharClass::Alphanumeric),
        ('=', CharClass::Equals),
        ('>', CharClass::Greater),
        ('\'', CharClass::Quote),
        ('{', CharClass::LeftCurly),
        ('\'', CharClass::Quote),
        (';', CharClass::SemiColon),
    ];
    assert_eq!(
        tokenize_classified(&input),
        Ok(vec![
            ident("xy"),
            sym(Symbol::Arrow),
            quoted("{"),
            sym(Symbol::SemiColon),
        ])
    );
    let odd = vec![('!', CharClass::Other)];
    assert_eq!(tokenize_classified(&odd), Err(LexError::UnexpectedChar('!')));
}

#[test]
fn token_equality_is_by_variant_and_payload() {
    assert_eq!(ident("a"), ident("a"));
    assert_ne!(ident("a"), ident("b"));
    assert_ne!(ident("a"), quoted("a"));
    assert_eq!(sym(Symbol::Arrow), sym(Symbol::Arrow));
    assert_ne!(sym(Symbol::Arrow), sym(Symbol::Comma));
    assert_ne!(sym(Symbol::LeftCurly), sym(Symbol::RightCurly));
    assert_eq!(TokenKind::Space, TokenKind::Space);
    assert_ne!(TokenKind::Space, ident(""));
    assert_eq!(ident("a").duplicate(), ident("a"));
    assert_eq!(quoted("x y").duplicate(), quoted("x y"));
}
