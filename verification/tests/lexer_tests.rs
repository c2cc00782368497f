use lattice::syntax::lexer::{tokenize, LexError, Sym, TokenKind};

fn kinds(src: &str) -> Vec<TokenKind> {
    tokenize(src).unwrap().into_iter().map(|t| t.kind).collect()
}

#[test]
fn words_numbers_and_operators() {
    assert_eq!(
        kinds("let x1 = 42 >= 3.5"),
        vec![
            TokenKind::Word("let".to_string()),
            TokenKind::Word("x1".to_string()),
            TokenKind::Punct(Sym::Assign),
            TokenKind::Int(42),
            TokenKind::Punct(Sym::Ge),
            TokenKind::Float("3.5".to_string()),
        ]
    );
    assert_eq!(kinds("a::b->c=>d"), vec![
        TokenKind::Word("a".to_string()),
        TokenKind::Punct(Sym::ColonColon),
        TokenKind::Word("b".to_string()),
        TokenKind::Punct(Sym::Arrow),
        TokenKind::Word("c".to_string()),
        TokenKind::Punct(Sym::FatArrow),
        TokenKind::Word("d".to_string()),
    ]);
}

#[test]
fn comments_and_white_space_are_skipped() {
    assert_eq!(kinds("  // note\n x // more"), vec![TokenKind::Word("x".to_string())]);
    assert!(kinds("// only a comment").is_empty());
}

#[test]
fn strings_of_every_kind() {
    assert_eq!(kinds("\"a\\n\\\"b\""), vec![TokenKind::Str("a\n\"b".to_string())]);
    assert_eq!(kinds("\"\"\"x\ny\"\"\""), vec![TokenKind::Str("x\ny".to_string())]);
    assert_eq!(kinds("f\"hi {name}\""), vec![TokenKind::FStr("hi {name}".to_string())]);
    assert_eq!(kinds("f"), vec![TokenKind::Word("f".to_string())]);
}

#[test]
fn errors_name_their_position() {
    assert_eq!(tokenize("x = @").unwrap_err(), LexError::UnexpectedChar(4));
    assert_eq!(tokenize("a \"open").unwrap_err(), LexError::UnterminatedString(2));
    assert_eq!(tokenize("\"\"\"never closed").unwrap_err(), LexError::UnterminatedString(0));
    assert_eq!(tokenize("f\"x").unwrap_err(), LexError::UnterminatedString(0));
    assert_eq!(tokenize("1 99999999999999999999").unwrap_err(), LexError::IntegerTooLarge(2));
    assert!(tokenize("9223372036854775807").is_ok());
}

#[test]
fn spans_count_bytes_lines_and_columns() {
    let toks = tokenize("a\n  \"你\" = 1").unwrap();
    assert_eq!(toks[1].start, 4);
    assert_eq!(toks[1].span.start, 4);
    assert_eq!(toks[1].span.end, 9);
    assert_eq!(toks[1].span.line, 2);
    assert_eq!(toks[1].span.column, 3);
    assert_eq!(toks[2].span.start, 10);
    assert_eq!(toks[2].span.column, 7);
    assert_eq!(toks[3].span.start, 12);
    assert_eq!(toks[3].span.column, 9);
}

#[test]
fn each_text_is_read_one_way() {
    // `f` before a quote opens an interpolated string, `1.` before a digit a
    // number with a fractional part, and `""` before a quote a raw string.
    assert_eq!(kinds("f\"x\" f \"y\""), vec![
        TokenKind::FStr("x".to_string()),
        TokenKind::Word("f".to_string()),
        TokenKind::Str("y".to_string()),
    ]);
    assert_eq!(kinds("1.5 1 .5"), vec![
        TokenKind::Float("1.5".to_string()),
        TokenKind::Int(1),
        TokenKind::Punct(Sym::Dot),
        TokenKind::Int(5),
    ]);
    assert_eq!(kinds("\"\"\"a\"\"\" \"\""), vec![
        TokenKind::Str("a".to_string()),
        TokenKind::Str(String::new()),
    ]);
    let first: Vec<(usize, usize)> = tokenize("x<=-1").unwrap().iter().map(|t| (t.start, t.end)).collect();
    assert_eq!(first, vec![(0, 1), (1, 3), (3, 4), (4, 5)]);
}

#[test]
fn a_text_is_read_or_refused() {
    assert_eq!(tokenize("x = 99999999999999999999").err(), Some(LexError::IntegerTooLarge(4)));
    assert_eq!(kinds("x = 99999999999999999999.5").len(), 3);
    assert_eq!(tokenize("f\"open").err(), Some(LexError::UnterminatedString(0)));
    assert_eq!(kinds("f \"closed\"").len(), 2);
    assert_eq!(tokenize("a @ b").err(), Some(LexError::UnexpectedChar(2)));
    assert_eq!(kinds("a == b").len(), 3);
}
