use cst_parser::kind::SyntaxKind;
use cst_parser::lexer::lex;

fn generic_test(input: &str, kind: SyntaxKind) {
    let lexemes = lex(input.as_bytes());
    assert!(!lexemes.is_empty());
    assert_eq!(lexemes[0].kind, kind);
    assert_eq!(lexemes[0].text, input.as_bytes().to_vec());
}

#[test]
fn lex_spaces() {
    generic_test("   ", SyntaxKind::Whitespace);
}

#[test]
fn lex_fn_keyword() {
    generic_test("fn", SyntaxKind::FnKw);
}

#[test]
fn lex_let_keyword() {
    generic_test("let", SyntaxKind::LetKw);
}

#[test]
fn lex_alphabetic_identifier() {
    generic_test("abcd", SyntaxKind::Ident);
}

#[test]
fn lex_single_identifier() {
    generic_test("x", SyntaxKind::Ident);
}

#[test]
fn lex_alphanumeric_identifier() {
    generic_test("ab123cde456", SyntaxKind::Ident);
}

#[test]
fn lex_mixed_case_identifier() {
    generic_test("ABCdef", SyntaxKind::Ident);
}

#[test]
fn lex_number() {
    generic_test("123456", SyntaxKind::Number);
}

#[test]
fn lex_plus() {
    generic_test("+", SyntaxKind::Plus);
}

#[test]
fn lex_minus() {
    generic_test("-", SyntaxKind::Minus);
}

#[test]
fn lex_star() {
    generic_test("*", SyntaxKind::Star);
}

#[test]
fn lex_slash() {
    generic_test("/", SyntaxKind::Slash);
}

#[test]
fn lex_equals() {
    generic_test("=", SyntaxKind::Equals);
}

#[test]
fn lex_left_brace() {
    generic_test("{", SyntaxKind::LBrace);
}

#[test]
fn lex_right_brace() {
    generic_test("}", SyntaxKind::RBrace);
}

#[test]
fn lex_left_paren() {
    generic_test("(", SyntaxKind::LParen);
}

#[test]
fn lex_right_paren() {
    generic_test(")", SyntaxKind::RParen);
}

#[test]
fn lex_keyword_prefix_is_identifier() {
    generic_test("fnord", SyntaxKind::Ident);
    generic_test("letter", SyntaxKind::Ident);
}

#[test]
fn lex_comment_stops_at_newline() {
    let lexemes = lex("# note\n1".as_bytes());
    assert_eq!(lexemes.len(), 3);
    assert_eq!(lexemes[0].kind, SyntaxKind::Comment);
    assert_eq!(lexemes[0].text, b"# note".to_vec());
    assert_eq!(lexemes[1].kind, SyntaxKind::Whitespace);
    assert_eq!(lexemes[2].kind, SyntaxKind::Number);
}

#[test]
fn lex_unknown_byte_is_error_lexeme() {
    let lexemes = lex("1$2".as_bytes());
    assert_eq!(lexemes.len(), 3);
    assert_eq!(lexemes[1].kind, SyntaxKind::Error);
    assert_eq!(lexemes[1].text, b"$".to_vec());
}

#[test]
fn lex_multibyte_character_is_one_error_lexeme() {
    let lexemes = lex("é1".as_bytes());
    assert_eq!(lexemes.len(), 2);
    assert_eq!(lexemes[0].kind, SyntaxKind::Error);
    assert_eq!(lexemes[0].text, "é".as_bytes().to_vec());
    assert_eq!(lexemes[1].kind, SyntaxKind::Number);
}

#[test]
fn lex_covers_input() {
    let input = "let x = (a1 + 22) * -3 # done\n\t{}";
    let lexemes = lex(input.as_bytes());
    let mut joined: Vec<u8> = Vec::new();
    for l in &lexemes {
        assert!(!l.text.is_empty());
        joined.extend_from_slice(&l.text);
    }
    assert_eq!(joined, input.as_bytes().to_vec());
}
