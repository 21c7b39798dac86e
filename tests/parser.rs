use cst_parser::parse;
use cst_parser::parser::{Diagnostic, Expected};
use cst_parser::tree::Entry;
use cst_parser::kind::SyntaxKind;

fn check(input: &str, expected_tree: &str) {
    let parse = parse(input);
    assert_eq!(parse.debug_tree(), expected_tree);
}

fn leaf_text(input: &str) -> Vec<u8> {
    let parse = parse(input);
    let mut out: Vec<u8> = Vec::new();
    for e in &parse.tree.entries {
        if let Entry::Leaf { text, .. } = e {
            out.extend_from_slice(text);
        }
    }
    out
}

fn has_error_node(input: &str) -> bool {
    parse(input).tree.entries.iter().any(|e| matches!(e, Entry::Open { kind: SyntaxKind::Error }))
}

#[test]
fn parse_nothing() {
    check("", "Root@0..0");
}

#[test]
fn mod_parse_nothing() {
    check("", "Root@0..0");
}

#[test]
fn parse_whitespace() {
    check("   ", "Root@0..3\n  Whitespace@0..3 \"   \"");
}

#[test]
fn mod_parse_whitespace() {
    check("   ", "Root@0..3\n  Whitespace@0..3 \"   \"");
}

#[test]
fn parse_comment() {
    check("# hello!", "Root@0..8\n  Comment@0..8 \"# hello!\"");
}

#[test]
fn parse_binary_expression_interspersed_with_comments() {
    check(
        "\n1\n  + 1 # Add one\n  + 10 # Add ten",
        r##"Root@0..35
  Whitespace@0..1 "\n"
  BinaryExpr@1..35
    BinaryExpr@1..21
      Number@1..2 "1"
      Whitespace@2..5 "\n  "
      Plus@5..6 "+"
      Whitespace@6..7 " "
      Number@7..8 "1"
      Whitespace@8..9 " "
      Comment@9..18 "# Add one"
      Whitespace@18..21 "\n  "
    Plus@21..22 "+"
    Whitespace@22..23 " "
    Number@23..25 "10"
    Whitespace@25..26 " "
    Comment@26..35 "# Add ten""##,
    );
}

#[test]
fn parse_multiplication_binds_tighter() {
    check(
        "1 + 2 * 3",
        r#"Root@0..9
  BinaryExpr@0..9
    Number@0..1 "1"
    Whitespace@1..2 " "
    Plus@2..3 "+"
    Whitespace@3..4 " "
    BinaryExpr@4..9
      Number@4..5 "2"
      Whitespace@5..6 " "
      Star@6..7 "*"
      Whitespace@7..8 " "
      Number@8..9 "3""#,
    );
}

#[test]
fn parse_subtraction_is_left_associative() {
    check(
        "1 - 2 - 3",
        r#"Root@0..9
  BinaryExpr@0..9
    BinaryExpr@0..6
      Number@0..1 "1"
      Whitespace@1..2 " "
      Minus@2..3 "-"
      Whitespace@3..4 " "
      Number@4..5 "2"
      Whitespace@5..6 " "
    Minus@6..7 "-"
    Whitespace@7..8 " "
    Number@8..9 "3""#,
    );
}

#[test]
fn parse_trailing_comment_is_inside_node() {
    check(
        "1 + 1 # comment",
        r##"Root@0..15
  BinaryExpr@0..15
    Number@0..1 "1"
    Whitespace@1..2 " "
    Plus@2..3 "+"
    Whitespace@3..4 " "
    Number@4..5 "1"
    Whitespace@5..6 " "
    Comment@6..15 "# comment""##,
    );
}

#[test]
fn parse_prefix_minus() {
    check(
        "-1",
        r#"Root@0..2
  PrefixExpr@0..2
    Minus@0..1 "-"
    Number@1..2 "1""#,
    );
}

#[test]
fn parse_parenthesised_group() {
    check(
        "(1+a)*2",
        r#"Root@0..7
  BinaryExpr@0..7
    LParen@0..1 "("
    BinaryExpr@1..4
      Number@1..2 "1"
      Plus@2..3 "+"
      Ident@3..4 "a"
    RParen@4..5 ")"
    Star@5..6 "*"
    Number@6..7 "2""#,
    );
}

#[test]
fn parse_trailing_operator_recovers() {
    let p = parse("1 +");
    assert_eq!(
        p.debug_tree(),
        r#"Root@0..3
  BinaryExpr@0..3
    Number@0..1 "1"
    Whitespace@1..2 " "
    Plus@2..3 "+"
    Error@3..3"#
    );
    assert_eq!(p.errors, vec![Diagnostic { offset: 3, expected: Expected::Expression }]);
}

#[test]
fn parse_unmatched_paren_recovers() {
    let p = parse("(1");
    assert_eq!(
        p.debug_tree(),
        r#"Root@0..2
  LParen@0..1 "("
  Number@1..2 "1"
  Error@2..2"#
    );
    assert_eq!(p.errors, vec![Diagnostic { offset: 2, expected: Expected::RParen }]);
}

#[test]
fn parse_leftover_input_is_error_node() {
    let p = parse("1 2");
    assert_eq!(
        p.debug_tree(),
        r#"Root@0..3
  Number@0..1 "1"
  Whitespace@1..2 " "
  Error@2..3
    Number@2..3 "2""#
    );
    assert_eq!(p.errors, vec![Diagnostic { offset: 2, expected: Expected::EndOfInput }]);
}

#[test]
fn parse_malformed_inputs_report_errors() {
    for input in ["(", "((1 + 2)", "1 *", "-", "1 + (2 - ", ") 1", "{ 1 }", "let x = 1"] {
        let p = parse(input);
        assert!(!p.errors.is_empty(), "{}", input);
        assert!(has_error_node(input), "{}", input);
    }
}

#[test]
fn parse_well_formed_inputs_report_no_errors() {
    for input in ["1", "a * (b + 3) / -c", "  7 # seven", ""] {
        assert!(parse(input).errors.is_empty(), "{}", input);
    }
}

#[test]
fn parse_round_trips() {
    for input in [
        "",
        "   ",
        "1 + 2 * 3",
        "(1 + (2",
        "1 + + 2 ) ) $ é # tail\n",
        "let fn = { x }",
        "\t-(-a)\r\n",
    ] {
        assert_eq!(leaf_text(input), input.as_bytes().to_vec());
    }
}

#[test]
fn parse_is_deterministic() {
    let input = "1 - (2 * x) / -3 # c";
    assert_eq!(parse(input).debug_tree(), parse(input).debug_tree());
    assert_eq!(parse(input).errors, parse(input).errors);
}

#[test]
fn parse_escapes_quotes_in_comments() {
    check("# \"q\" \\", "Root@0..7\n  Comment@0..7 \"# \\\"q\\\" \\\\\"");
}

#[test]
fn tree_reports_kinds_spans_and_children() {
    let p = parse("1 + 2");
    let t = &p.tree;
    assert_eq!(t.root(), 0);
    assert_eq!(t.kind(0), Some(SyntaxKind::Root));
    assert_eq!(t.children(0), vec![1]);
    assert_eq!(t.kind(1), Some(SyntaxKind::BinaryExpr));
    assert_eq!(t.children(1), vec![2, 3, 4, 5, 6]);
    assert_eq!(t.kind(4), Some(SyntaxKind::Plus));
    assert_eq!(t.kind(7), None);
    assert_eq!(t.children(4), Vec::<usize>::new());
    assert_eq!(t.span(0), (0, 5));
    assert_eq!(t.span(1), (0, 5));
    assert_eq!(t.span(4), (2, 3));
    assert_eq!(t.span(6), (4, 5));
}

#[test]
fn tree_span_covers_trailing_comment() {
    let p = parse("1 + 1 # comment");
    assert_eq!(p.tree.span(0), (0, 15));
    assert_eq!(p.tree.span(1), (0, 15));
    let last = *p.tree.children(1).last().unwrap();
    assert_eq!(p.tree.kind(last), Some(SyntaxKind::Comment));
    assert_eq!(p.tree.span(last), (6, 15));
}

#[test]
fn tree_spans_count_bytes() {
    let p = parse("é+1");
    assert_eq!(p.tree.span(0), (0, 4));
    assert_eq!(leaf_text("é+1"), "é+1".as_bytes().to_vec());
}

#[test]
fn debug_bytes_matches_debug_tree() {
    let p = parse("(1)");
    assert_eq!(p.debug_bytes(), p.debug_tree().into_bytes());
    assert_eq!(
        p.debug_tree(),
        "Root@0..3\n  LParen@0..1 \"(\"\n  Number@1..2 \"1\"\n  RParen@2..3 \")\""
    );
}

#[test]
fn parse_prefix_minus_binds_tighter_than_product() {
    check(
        "-1 * 2",
        r#"Root@0..6
  BinaryExpr@0..6
    PrefixExpr@0..3
      Minus@0..1 "-"
      Number@1..2 "1"
      Whitespace@2..3 " "
    Star@3..4 "*"
    Whitespace@4..5 " "
    Number@5..6 "2""#,
    );
}

#[test]
fn parse_closing_before_opening_recovers() {
    let p = parse(")(1");
    assert_eq!(
        p.debug_tree(),
        r#"Root@0..3
  Error@0..0
  Error@0..3
    RParen@0..1 ")"
    LParen@1..2 "("
    Number@2..3 "1""#
    );
    assert_eq!(
        p.errors,
        vec![
            Diagnostic { offset: 0, expected: Expected::Expression },
            Diagnostic { offset: 0, expected: Expected::EndOfInput },
        ]
    );
}

#[test]
fn dump_quotes_control_bytes_as_debug_does() {
    check("1\u{7}", "Root@0..2\n  Number@0..1 \"1\"\n  Error@1..2\n    Error@1..2 \"\\u{7}\"");
    check("\0", "Root@0..1\n  Error@0..1\n    Error@0..1 \"\\0\"");
    check("\u{1b}", "Root@0..1\n  Error@0..1\n    Error@0..1 \"\\u{1b}\"");
}
