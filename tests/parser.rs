use frost::lexer::lex;
use frost::parser::event::Event;
use frost::parser::{parse, Parser};

fn check(input: &str, expected_tree: &str) {
    let parse = parse(input);

    assert_eq!(parse.debug_tree(), expected_tree);
}

#[test]
fn parse_nothing() {
    check("", "Root@0..0\n");
}

#[test]
fn parse_nothing_has_empty_text() {
    assert_eq!(parse("").text(), "");
}

#[test]
fn parse_number() {
    check("123", "Root@0..3\n  Number@0..3 \"123\"\n");
}

#[test]
fn parse_multiplication_binds_tighter() {
    check(
        "1+2*3",
        "Root@0..5
  BinaryExpr@0..5
    Number@0..1 \"1\"
    Plus@1..2 \"+\"
    BinaryExpr@2..5
      Number@2..3 \"2\"
      Star@3..4 \"*\"
      Number@4..5 \"3\"
",
    );
}

#[test]
fn parse_subtraction_is_left_associative() {
    check(
        "1-2-3",
        "Root@0..5
  BinaryExpr@0..5
    BinaryExpr@0..3
      Number@0..1 \"1\"
      Minus@1..2 \"-\"
      Number@2..3 \"2\"
    Minus@3..4 \"-\"
    Number@4..5 \"3\"
",
    );
}

#[test]
fn parse_parentheses_override_precedence() {
    check(
        "(1+2)*3",
        "Root@0..7
  BinaryExpr@0..7
    LParen@0..1 \"(\"
    BinaryExpr@1..4
      Number@1..2 \"1\"
      Plus@2..3 \"+\"
      Number@3..4 \"2\"
    RParen@4..5 \")\"
    Star@5..6 \"*\"
    Number@6..7 \"3\"
",
    );
}

#[test]
fn parse_attaches_trivia() {
    check(
        "  1 + 2",
        "Root@0..7
  Whitespace@0..2 \"  \"
  BinaryExpr@2..7
    Number@2..3 \"1\"
    Whitespace@3..4 \" \"
    Plus@4..5 \"+\"
    Whitespace@5..6 \" \"
    Number@6..7 \"2\"
",
    );
}

#[test]
fn parse_recovers_from_missing_operand() {
    check(
        "+1",
        "Root@0..2
  Error@0..1
    Plus@0..1 \"+\"
  Number@1..2 \"1\"
",
    );
}

#[test]
fn parse_unary_minus() {
    check(
        "-a*2",
        "Root@0..4
  BinaryExpr@0..4
    PrefixExpr@0..2
      Minus@0..1 \"-\"
      Ident@1..2 \"a\"
    Star@2..3 \"*\"
    Number@3..4 \"2\"
",
    );
}

#[test]
fn parse_trailing_operator_gives_empty_error_node() {
    check(
        "1+",
        "Root@0..2
  BinaryExpr@0..2
    Number@0..1 \"1\"
    Plus@1..2 \"+\"
    Error@2..2
",
    );
}

#[test]
fn parse_stray_closing_bracket() {
    check(
        ")",
        "Root@0..1
  Error@0..1
    RParen@0..1 \")\"
",
    );
}

#[test]
fn parse_is_lossless() {
    for input in ["", "  1 + 2", "(1 + # c\n 2) * -x", "let a = fn {", "1 2 ))(", "é+?"] {
        assert_eq!(parse(input).text(), input);
    }
}

#[test]
fn event_log_is_balanced() {
    let lexemes = lex("(1 + 2) * -3 - 4");
    let events = Parser::new(&lexemes).parse();
    let opens = events
        .iter()
        .filter(|e| matches!(e, Event::StartNode { .. } | Event::StartNodeAt { .. }))
        .count();
    let finishes = events.iter().filter(|e| matches!(e, Event::FinishNode)).count();
    assert_eq!(opens, finishes);
    assert_eq!(opens, 5);
}
