use rust_eval::eval;
use rust_eval::parse;
use rust_eval::parse_int;
use rust_eval::parse_plus;
use rust_eval::split_at_last_occurrence;
use rust_eval::Token;

fn leaf(v: i32) -> Token {
    Token::Int { val: v }
}

fn plus(l: Token, r: Token) -> Token {
    Token::Plus { left: Box::new(l), right: Box::new(r) }
}

fn minus(l: Token, r: Token) -> Token {
    Token::Minus { left: Box::new(l), right: Box::new(r) }
}

fn mult(l: Token, r: Token) -> Token {
    Token::Mult { left: Box::new(l), right: Box::new(r) }
}

#[test]
fn precedence_by_presence() {
    let (tree, diagnostics) = parse("2 + 10 * 3");
    assert_eq!(diagnostics, 0);
    assert!(tree == plus(leaf(2), mult(leaf(10), leaf(3))));
    assert_eq!(eval(&tree), Ok(32));
}

#[test]
fn rightmost_mult_split() {
    let (tree, diagnostics) = parse("4 * 9 / 3 * 2");
    assert_eq!(diagnostics, 0);
    assert_eq!(eval(&tree), Ok(24));
}

#[test]
fn modulo_parse() {
    let (tree, diagnostics) = parse("5 % 3");
    assert_eq!(diagnostics, 0);
    assert_eq!(eval(&tree), Ok(2));
}

#[test]
fn malformed_literal_defaults_with_diagnostic() {
    let (tree, diagnostics) = parse("abc");
    assert!(tree == leaf(0));
    assert_eq!(diagnostics, 1);
}

#[test]
fn empty_string_is_malformed() {
    let (tree, diagnostics) = parse("");
    assert!(tree == leaf(0));
    assert_eq!(diagnostics, 1);
}

#[test]
fn whitespace_around_literal() {
    let (tree, diagnostics) = parse("  42\t");
    assert!(tree == leaf(42));
    assert_eq!(diagnostics, 0);
}

#[test]
fn unicode_whitespace_around_literal() {
    let (tree, diagnostics) = parse("\u{a0}7\u{2003}");
    assert!(tree == leaf(7));
    assert_eq!(diagnostics, 0);
}

#[test]
fn literal_out_of_range_is_malformed() {
    let (tree, diagnostics) = parse("2147483648");
    assert!(tree == leaf(0));
    assert_eq!(diagnostics, 1);
}

#[test]
fn literal_at_i32_max() {
    let (tree, diagnostics) = parse("2147483647");
    assert!(tree == leaf(2147483647));
    assert_eq!(diagnostics, 0);
}

#[test]
fn minus_chain_is_left_associative() {
    let (tree, diagnostics) = parse("10 - 3 - 2");
    assert_eq!(diagnostics, 0);
    assert!(tree == minus(minus(leaf(10), leaf(3)), leaf(2)));
    assert_eq!(eval(&tree), Ok(5));
}

#[test]
fn leading_minus_splits_to_empty_left() {
    let (tree, diagnostics) = parse("-5");
    assert!(tree == minus(leaf(0), leaf(5)));
    assert_eq!(diagnostics, 1);
    assert_eq!(eval(&tree), Ok(-5));
}

#[test]
fn split_at_last_occurrence_found() {
    let (l, r) = split_at_last_occurrence("a+b+c", '+');
    assert_eq!(l, "a+b");
    assert_eq!(r, "c");
}

#[test]
fn split_at_last_occurrence_absent() {
    let (l, r) = split_at_last_occurrence("abc", '+');
    assert_eq!(l, "");
    assert_eq!(r, "abc");
}

#[test]
fn parse_plus_without_plus_keeps_whole_right() {
    let (tree, diagnostics) = parse_plus("5");
    assert!(tree == plus(leaf(0), leaf(5)));
    assert_eq!(diagnostics, 1);
}

#[test]
fn signed_literals() {
    assert!(parse_int("-12") == (leaf(-12), 0));
    assert!(parse_int("+34") == (leaf(34), 0));
    assert!(parse_int(" -2147483648 ") == (leaf(i32::MIN), 0));
    assert!(parse_int("-2147483649") == (leaf(0), 1));
    assert!(parse_int("--1") == (leaf(0), 1));
    assert!(parse_int("-") == (leaf(0), 1));
}

#[test]
fn long_mixed_expression() {
    let (tree, diagnostics) = parse("2 * 1 * 0 + 10 % 2 / 1 * 5 - 10 * 3 + 0");
    assert_eq!(diagnostics, 0);
    assert_eq!(eval(&tree), Ok(-30));
}
