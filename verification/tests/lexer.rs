use furnace::parser::{tokenize, TokenKind};

#[test]
fn tokens_carry_kind_text_and_position() {
    let toks = tokenize("Int X = 10;\n  Print(\"hi\");").unwrap();
    let kinds: Vec<TokenKind> = toks.iter().map(|t| t.kind).collect();
    assert_eq!(
        kinds,
        vec![
            TokenKind::Word,
            TokenKind::Word,
            TokenKind::Symbol,
            TokenKind::Integer,
            TokenKind::Symbol,
            TokenKind::Word,
            TokenKind::Symbol,
            TokenKind::Str,
            TokenKind::Symbol,
            TokenKind::Symbol,
            TokenKind::End,
        ]
    );
    assert_eq!(toks[3].text, "10");
    assert_eq!((toks[3].line, toks[3].col), (1, 9));
    assert_eq!((toks[5].line, toks[5].col), (2, 3));
    assert_eq!(toks[7].text, "\"hi\"");
}

#[test]
fn comments_and_two_character_symbols() {
    let toks = tokenize("A >= B // note\n-[ block\n ]- C ** 2.5").unwrap();
    let texts: Vec<&str> = toks.iter().map(|t| t.text.as_str()).collect();
    assert_eq!(texts, vec!["A", ">=", "B", "C", "**", "2.5", ""]);
    assert_eq!(toks[5].kind, TokenKind::Float);
}

#[test]
fn lexical_errors_are_reported_at_their_place() {
    let e = tokenize("X = 1 @").unwrap_err();
    assert_eq!(e.message, "unexpected character '@'");
    assert_eq!((e.line, e.col), (1, 7));
    let e = tokenize("-[ open").unwrap_err();
    assert_eq!(e.message, "unterminated comment");
    let e = tokenize("Print(\"abc").unwrap_err();
    assert_eq!(e.message, "unterminated string literal");
    assert_eq!((e.line, e.col), (1, 7));
    let e = tokenize("\\V\"a {b\"").unwrap_err();
    assert_eq!(e.message, "unterminated interpolation");
}
