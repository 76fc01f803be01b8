//! The simplifier: a post-order rewrite applying algebraic identity rules
//! (absorbing and identity elements of `*`, `/`, `+`, `-`), together with
//! proofs that simplification preserves the evaluated value and is idempotent.

use vstd::prelude::*;

use crate::eval::abs_of;
use crate::eval::eval_spec;
use crate::eval::quot_trunc;
use crate::token::Token;

verus! {

/// The mathematical simplifier. Both children are rewritten first, then
/// identity rules fire on the rewritten children, zero rules before one
/// rules. `Int` leaves are fixed points, and `Mod` nodes pass through with
/// their children untouched: no rewrite rule is defined for `Mod`, a
/// deliberate gap, not an oversight.
pub open spec fn spec_simplify(t: Token) -> Token
    decreases t,
{
    match t {
        Token::Plus { left, right } => {
            let simplified_left = spec_simplify(*left);
            let simplified_right = spec_simplify(*right);
            if simplified_left == (Token::Int { val: 0 }) {
                simplified_right
            } else if simplified_right == (Token::Int { val: 0 }) {
                simplified_left
            } else {
                Token::Plus { left: Box::new(simplified_left), right: Box::new(simplified_right) }
            }
        },
        Token::Minus { left, right } => {
            let simplified_left = spec_simplify(*left);
            let simplified_right = spec_simplify(*right);
            if simplified_left == (Token::Int { val: 0 }) {
                simplified_right
            } else if simplified_right == (Token::Int { val: 0 }) {
                simplified_left
            } else {
                Token::Minus { left: Box::new(simplified_left), right: Box::new(simplified_right) }
            }
        },
        Token::Mult { left, right } => {
            let simplified_left = spec_simplify(*left);
            let simplified_right = spec_simplify(*right);
            if simplified_left == (Token::Int { val: 0 }) {
                Token::Int { val: 0 }
            } else if simplified_right == (Token::Int { val: 0 }) {
                Token::Int { val: 0 }
            } else if simplified_right == (Token::Int { val: 1 }) {
                simplified_left
            } else if simplified_left == (Token::Int { val: 1 }) {
                simplified_right
            } else {
                Token::Mult { left: Box::new(simplified_left), right: Box::new(simplified_right) }
            }
        },
        Token::Div { left, right } => {
            let simplified_left = spec_simplify(*left);
            let simplified_right = spec_simplify(*right);
            if simplified_left == (Token::Int { val: 0 }) {
                Token::Int { val: 0 }
            } else if simplified_right == (Token::Int { val: 1 }) {
                simplified_left
            } else {
                Token::Div { left: Box::new(simplified_left), right: Box::new(simplified_right) }
            }
        },
        _ => t,
    }
}

/// True when `t` is the literal zero leaf.
fn is_zero(t: &Token) -> (r: bool)
    ensures
        r == (*t == (Token::Int { val: 0 })),
{
    match t {
        Token::Int { val } => *val == 0,
        _ => false,
    }
}

/// True when `t` is the literal one leaf.
fn is_one(t: &Token) -> (r: bool)
    ensures
        r == (*t == (Token::Int { val: 1 })),
{
    match t {
        Token::Int { val } => *val == 1,
        _ => false,
    }
}

/// Rewrites the tree into an algebraically simplified form, consuming its
/// input and reusing unchanged subtrees by move.
pub fn simplify(e: Token) -> (r: Token)
    ensures
        r == spec_simplify(e),
    decreases e,
{
    match e {
        Token::Plus { left, right } => {
            let simplified_left = simplify(*left);
            let simplified_right = simplify(*right);
            if is_zero(&simplified_left) {
                simplified_right
            } else if is_zero(&simplified_right) {
                simplified_left
            } else {
                Token::Plus { left: Box::new(simplified_left), right: Box::new(simplified_right) }
            }
        },
        Token::Minus { left, right } => {
            let simplified_left = simplify(*left);
            let simplified_right = simplify(*right);
            if is_zero(&simplified_left) {
                simplified_right
            } else if is_zero(&simplified_right) {
                simplified_left
            } else {
                Token::Minus { left: Box::new(simplified_left), right: Box::new(simplified_right) }
            }
        },
        Token::Mult { left, right } => {
            let simplified_left = simplify(*left);
            let simplified_right = simplify(*right);
            if is_zero(&simplified_left) {
                Token::Int { val: 0 }
            } else if is_zero(&simplified_right) {
                Token::Int { val: 0 }
            } else if is_one(&simplified_right) {
                simplified_left
            } else if is_one(&simplified_left) {
                simplified_right
            } else {
                Token::Mult { left: Box::new(simplified_left), right: Box::new(simplified_right) }
            }
        },
        Token::Div { left, right } => {
            let simplified_left = simplify(*left);
            let simplified_right = simplify(*right);
            if is_zero(&simplified_left) {
                Token::Int { val: 0 }
            } else if is_one(&simplified_right) {
                simplified_left
            } else {
                Token::Div { left: Box::new(simplified_left), right: Box::new(simplified_right) }
            }
        },
        _ => e,
    }
}

/// Rules out the one rewrite that changes a tree's value: a `Minus` node
/// whose left child simplifies to the literal zero is replaced by its right
/// child, turning `0 - b` into `b`; that is value-preserving only when `b`
/// evaluates to zero. The condition constrains every `Minus` rewrite that the
/// post-order pass performs. Every other rule is unconditionally
/// value-preserving.
/// `Mod` children are never rewritten, so nothing below a `Mod` node is
/// constrained.
pub open spec fn minus_rewrites_preserve(t: Token) -> bool
    decreases t,
{
    match t {
        Token::Int { .. } => true,
        Token::Plus { left, right } => minus_rewrites_preserve(*left) && minus_rewrites_preserve(
            *right,
        ),
        Token::Minus { left, right } => minus_rewrites_preserve(*left) && minus_rewrites_preserve(
            *right,
        ) && (spec_simplify(*left) == (Token::Int { val: 0 }) ==> eval_spec(*right) == Some(0int)),
        Token::Mult { left, right } => minus_rewrites_preserve(*left) && minus_rewrites_preserve(
            *right,
        ),
        Token::Div { left, right } => minus_rewrites_preserve(*left) && minus_rewrites_preserve(
            *right,
        ),
        Token::Mod { .. } => true,
    }
}

/// Simplification preserves the evaluated value: on a tree with no zero
/// divisors, the simplified tree evaluates, and to the same value. The
/// `minus_rewrites_preserve` hypothesis excludes exactly the trees on which a
/// `Minus` left-zero rewrite discards a sign (for instance
/// `Minus(Int(0), Int(5))`, which evaluates to `-5` but simplifies to
/// `Int(5)`).
pub proof fn lemma_simplify_preserves_eval(t: Token)
    requires
        eval_spec(t) is Some,
        minus_rewrites_preserve(t),
    ensures
        eval_spec(spec_simplify(t)) == eval_spec(t),
    decreases t,
{
    match t {
        Token::Int { .. } => {},
        Token::Plus { left, right } => {
            lemma_simplify_preserves_eval(*left);
            lemma_simplify_preserves_eval(*right);
            assert(eval_spec(spec_simplify(t)) == eval_spec(t));
        },
        Token::Minus { left, right } => {
            lemma_simplify_preserves_eval(*left);
            lemma_simplify_preserves_eval(*right);
            assert(eval_spec(spec_simplify(t)) == eval_spec(t));
        },
        Token::Mult { left, right } => {
            lemma_simplify_preserves_eval(*left);
            lemma_simplify_preserves_eval(*right);
            assert(eval_spec(spec_simplify(t)) == eval_spec(t));
        },
        Token::Div { left, right } => {
            lemma_simplify_preserves_eval(*left);
            lemma_simplify_preserves_eval(*right);
            let a = eval_spec(*left)->Some_0;
            let b = eval_spec(*right)->Some_0;
            if spec_simplify(*left) == (Token::Int { val: 0 }) {
                assert(quot_trunc(0, b) == 0) by {
                    vstd::arithmetic::div_mod::lemma_div_basics(abs_of(b));
                };
            } else if spec_simplify(*right) == (Token::Int { val: 1 }) {
                assert(quot_trunc(a, 1) == a) by {
                    vstd::arithmetic::div_mod::lemma_div_basics(abs_of(a));
                };
            }
        },
        Token::Mod { .. } => {},
    }
}

/// Simplification is idempotent: simplifying an already simplified tree
/// returns it unchanged, structurally.
pub proof fn lemma_simplify_idempotent(t: Token)
    ensures
        spec_simplify(spec_simplify(t)) == spec_simplify(t),
    decreases t,
{
    match t {
        Token::Int { .. } => {},
        Token::Plus { left, right } => {
            lemma_simplify_idempotent(*left);
            lemma_simplify_idempotent(*right);
        },
        Token::Minus { left, right } => {
            lemma_simplify_idempotent(*left);
            lemma_simplify_idempotent(*right);
        },
        Token::Mult { left, right } => {
            lemma_simplify_idempotent(*left);
            lemma_simplify_idempotent(*right);
        },
        Token::Div { left, right } => {
            lemma_simplify_idempotent(*left);
            lemma_simplify_idempotent(*right);
        },
        Token::Mod { .. } => {},
    }
}

} // verus!
