use frost::lexer::{lex, Lexeme, Lexer, SyntaxKind};

fn check(input: &str, kind: SyntaxKind) {
    let mut lexer = Lexer::new(input);

    assert_eq!(lexer.next(), Some(Lexeme { kind, text: input.to_string() }));
}

#[test]
fn lex_spaces() {
    check("   ", SyntaxKind::Whitespace);
}

#[test]
fn lex_fn_keyword() {
    check("fn", SyntaxKind::FnKw);
}

#[test]
fn lex_let_keyword() {
    check("let", SyntaxKind::LetKw);
}

#[test]
fn lex_alphabetic_identifier() {
    check("abcd", SyntaxKind::Ident);
}

#[test]
fn lex_alphanumeric_identifier() {
    check("ab123cde456", SyntaxKind::Ident);
}

#[test]
fn lex_mixed_case_identifier() {
    check("ABCdef", SyntaxKind::Ident);
}

#[test]
fn lex_number() {
    check("123456", SyntaxKind::Number);
}

#[test]
fn lex_plus() {
    check("+", SyntaxKind::Plus);
}

#[test]
fn lex_minus() {
    check("-", SyntaxKind::Minus);
}

#[test]
fn lex_star() {
    check("*", SyntaxKind::Star);
}

#[test]
fn lex_slash() {
    check("/", SyntaxKind::Slash);
}

#[test]
fn lex_equals() {
    check("=", SyntaxKind::Equals);
}

#[test]
fn lex_left_brace() {
    check("{", SyntaxKind::LBrace);
}

#[test]
fn lex_right_brace() {
    check("}", SyntaxKind::RBrace);
}

#[test]
fn lex_single_char_identifier() {
    check("x", SyntaxKind::Ident);
}

#[test]
fn lex_left_parenthesis() {
    check("(", SyntaxKind::LParen);
}

#[test]
fn lex_right_parenthesis() {
    check(")", SyntaxKind::RParen);
}

#[test]
fn lex_comment() {
    check("# foo", SyntaxKind::Comment);
}

#[test]
fn lex_spaces_and_newlines() {
    check("  \n ", SyntaxKind::Whitespace);
}

fn kinds_and_texts(input: &str) -> Vec<(SyntaxKind, String)> {
    lex(input).into_iter().map(|l| (l.kind, l.text)).collect()
}

#[test]
fn lex_empty_input_gives_nothing() {
    assert!(lex("").is_empty());
    let mut lexer = Lexer::new("");
    assert_eq!(lexer.next(), None);
}

#[test]
fn lex_keyword_prefix_is_identifier() {
    assert_eq!(kinds_and_texts("fnx"), vec![(SyntaxKind::Ident, "fnx".to_string())]);
    assert_eq!(kinds_and_texts("lets"), vec![(SyntaxKind::Ident, "lets".to_string())]);
}

#[test]
fn lex_comment_stops_at_newline() {
    assert_eq!(
        kinds_and_texts("# a\n1"),
        vec![
            (SyntaxKind::Comment, "# a".to_string()),
            (SyntaxKind::Whitespace, "\n".to_string()),
            (SyntaxKind::Number, "1".to_string()),
        ]
    );
}

#[test]
fn lex_unrecognised_characters_are_errors() {
    assert_eq!(
        kinds_and_texts("1?é"),
        vec![
            (SyntaxKind::Number, "1".to_string()),
            (SyntaxKind::Error, "?".to_string()),
            (SyntaxKind::Error, "é".to_string()),
        ]
    );
}

#[test]
fn lex_sequence_covers_input() {
    let input = "let x = 12*(y3 - 4) # note";
    let joined: String = lex(input).into_iter().map(|l| l.text).collect();
    assert_eq!(joined, input);
    assert_eq!(
        kinds_and_texts("let x=12"),
        vec![
            (SyntaxKind::LetKw, "let".to_string()),
            (SyntaxKind::Whitespace, " ".to_string()),
            (SyntaxKind::Ident, "x".to_string()),
            (SyntaxKind::Equals, "=".to_string()),
            (SyntaxKind::Number, "12".to_string()),
        ]
    );
}

#[test]
fn kind_raw_tags_round_trip() {
    assert_eq!(SyntaxKind::BinaryExpr.to_raw(), 0);
    assert_eq!(SyntaxKind::Whitespace.to_raw(), 18);
    assert_eq!(SyntaxKind::from_raw(15), Some(SyntaxKind::Root));
    assert_eq!(SyntaxKind::from_raw(19), None);
    assert!(SyntaxKind::Comment.is_trivia());
    assert!(SyntaxKind::Whitespace.is_trivia());
    assert!(!SyntaxKind::Number.is_trivia());
}
