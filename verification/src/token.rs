//! The expression tree: a recursive tagged union with exclusively owned
//! children, plus structural equality.

use vstd::prelude::*;

verus! {

/// An arithmetic expression tree. `Int` is a literal leaf; every other
/// variant is a binary node owning exactly two well-formed subtrees.
#[derive(Debug)]
pub enum Token {
    Int { val: i32 },
    Plus { left: Box<Token>, right: Box<Token> },
    Minus { left: Box<Token>, right: Box<Token> },
    Mult { left: Box<Token>, right: Box<Token> },
    Div { left: Box<Token>, right: Box<Token> },
    Mod { left: Box<Token>, right: Box<Token> },
}

impl PartialEq for Token {
    /// Deep structural equality: same variant, equal literals, equal subtrees.
    fn eq(&self, other: &Token) -> (r: bool)
        decreases self,
    {
        match (self, other) {
            (Token::Int { val: a }, Token::Int { val: b }) => a == b,
            (
                Token::Plus { left: a_left, right: a_right },
                Token::Plus { left: b_left, right: b_right },
            ) => (**a_left).eq(&**b_left) && (**a_right).eq(&**b_right),
            (
                Token::Minus { left: a_left, right: a_right },
                Token::Minus { left: b_left, right: b_right },
            ) => (**a_left).eq(&**b_left) && (**a_right).eq(&**b_right),
            (
                Token::Mult { left: a_left, right: a_right },
                Token::Mult { left: b_left, right: b_right },
            ) => (**a_left).eq(&**b_left) && (**a_right).eq(&**b_right),
            (
                Token::Div { left: a_left, right: a_right },
                Token::Div { left: b_left, right: b_right },
            ) => (**a_left).eq(&**b_left) && (**a_right).eq(&**b_right),
            (
                Token::Mod { left: a_left, right: a_right },
                Token::Mod { left: b_left, right: b_right },
            ) => (**a_left).eq(&**b_left) && (**a_right).eq(&**b_right),
            _ => false,
        }
    }
}

impl vstd::std_specs::cmp::PartialEqSpecImpl for Token {
    open spec fn obeys_eq_spec() -> bool {
        true
    }

    open spec fn eq_spec(&self, other: &Token) -> bool {
        self == other
    }
}

} // verus!
