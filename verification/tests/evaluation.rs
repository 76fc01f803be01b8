use rust_eval::eval;
use rust_eval::EvalError;
use rust_eval::Token;

fn leaf(v: i32) -> Token {
    Token::Int { val: v }
}

fn plus(l: Token, r: Token) -> Token {
    Token::Plus { left: Box::new(l), right: Box::new(r) }
}

fn div(l: Token, r: Token) -> Token {
    Token::Div { left: Box::new(l), right: Box::new(r) }
}

fn modulo(l: Token, r: Token) -> Token {
    Token::Mod { left: Box::new(l), right: Box::new(r) }
}

#[test]
fn int_leaf_evaluates_to_itself() {
    assert_eq!(eval(&leaf(7)), Ok(7));
    assert_eq!(eval(&leaf(-7)), Ok(-7));
}

#[test]
fn division_by_zero_is_fatal() {
    assert_eq!(eval(&div(leaf(1), leaf(0))), Err(EvalError::DivisionByZero));
}

#[test]
fn modulo_by_zero_is_fatal() {
    assert_eq!(eval(&modulo(leaf(1), leaf(0))), Err(EvalError::DivisionByZero));
}

#[test]
fn division_by_zero_propagates() {
    assert_eq!(eval(&plus(leaf(1), div(leaf(1), leaf(0)))), Err(EvalError::DivisionByZero));
}

#[test]
fn division_truncates_toward_zero() {
    assert_eq!(eval(&div(leaf(-7), leaf(2))), Ok(-3));
    assert_eq!(eval(&div(leaf(7), leaf(-2))), Ok(-3));
    assert_eq!(eval(&div(leaf(-7), leaf(-2))), Ok(3));
    assert_eq!(eval(&div(leaf(7), leaf(2))), Ok(3));
}

#[test]
fn remainder_sign_follows_dividend() {
    assert_eq!(eval(&modulo(leaf(-7), leaf(3))), Ok(-1));
    assert_eq!(eval(&modulo(leaf(7), leaf(-3))), Ok(1));
    assert_eq!(eval(&modulo(leaf(-7), leaf(-3))), Ok(-1));
    assert_eq!(eval(&modulo(leaf(7), leaf(3))), Ok(1));
}

#[test]
fn nested_expression_evaluates() {
    let e = plus(leaf(3), modulo(leaf(1), leaf(2)));
    assert_eq!(eval(&e), Ok(4));
}
