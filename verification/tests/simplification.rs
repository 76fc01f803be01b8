use rust_eval::eval;
use rust_eval::parse;
use rust_eval::simplify;
use rust_eval::Token;

fn leaf(v: i32) -> Token {
    Token::Int { val: v }
}

fn plus(l: Token, r: Token) -> Token {
    Token::Plus { left: Box::new(l), right: Box::new(r) }
}

fn minus(l: Token, r: Token) -> Token {
    Token::Minus { left: Box::new(l), right: Box::new(r) }
}

fn mult(l: Token, r: Token) -> Token {
    Token::Mult { left: Box::new(l), right: Box::new(r) }
}

fn div(l: Token, r: Token) -> Token {
    Token::Div { left: Box::new(l), right: Box::new(r) }
}

fn modulo(l: Token, r: Token) -> Token {
    Token::Mod { left: Box::new(l), right: Box::new(r) }
}

#[test]
fn mult_by_zero_absorbs() {
    assert_eq!(eval(&mult(leaf(0), leaf(5))), Ok(0));
    let simplified = simplify(mult(leaf(0), leaf(5)));
    assert!(simplified == leaf(0));
    assert_eq!(eval(&simplified), Ok(0));
}

#[test]
fn plus_zero_child_is_dropped() {
    let simplified = simplify(plus(leaf(3), mult(leaf(0), leaf(2))));
    assert!(simplified == leaf(3));
}

#[test]
fn mult_by_one_is_dropped() {
    assert!(simplify(mult(leaf(1), leaf(7))) == leaf(7));
    assert!(simplify(mult(leaf(7), leaf(1))) == leaf(7));
}

#[test]
fn mult_zero_rule_beats_one_rule() {
    assert!(simplify(mult(leaf(0), leaf(1))) == leaf(0));
}

#[test]
fn div_rules() {
    assert!(simplify(div(leaf(0), leaf(5))) == leaf(0));
    assert!(simplify(div(leaf(5), leaf(1))) == leaf(5));
}

#[test]
fn minus_zero_on_the_right_is_dropped() {
    assert!(simplify(minus(leaf(7), leaf(0))) == leaf(7));
}

#[test]
fn minus_zero_on_the_left_keeps_right_child() {
    // The rule table replaces `0 - b` by `b`, discarding the sign: the one
    // rewrite that does not preserve the evaluated value.
    assert_eq!(eval(&minus(leaf(0), leaf(5))), Ok(-5));
    assert!(simplify(minus(leaf(0), leaf(5))) == leaf(5));
}

#[test]
fn mod_children_are_not_simplified() {
    let tree = modulo(plus(leaf(0), leaf(2)), leaf(3));
    let same = modulo(plus(leaf(0), leaf(2)), leaf(3));
    assert!(simplify(tree) == same);
}

#[test]
fn simplify_is_idempotent_on_parsed_tree() {
    let build = || parse("2 * 1 * 0 + 10 % 2 / 1 * 5 - 10 * 3 + 0").0;
    let once = simplify(build());
    let twice = simplify(simplify(build()));
    assert!(twice == once);
}

#[test]
fn simplify_preserves_value_of_parsed_tree() {
    let build = || parse("2 * 1 * 0 + 10 % 2 / 1 * 5 - 10 * 3 + 0").0;
    let before = eval(&build());
    let after = eval(&simplify(build()));
    assert_eq!(before, Ok(-30));
    assert_eq!(after, Ok(-30));
}
