//! The evaluator: a total structural fold from trees to fixed-width signed
//! integers, using truncating-toward-zero division and a remainder whose sign
//! follows the dividend. Division or remainder by zero is a fatal, typed
//! failure.

use vstd::arithmetic::div_mod::lemma_div_nonincreasing;
use vstd::arithmetic::div_mod::lemma_div_pos_is_pos;
use vstd::arithmetic::div_mod::lemma_mod_bound;
use vstd::prelude::*;

use crate::token::Token;

verus! {

/// The one unrecoverable evaluation failure: a `Div` or `Mod` node whose
/// right operand evaluates to zero.
#[derive(Clone, Copy, Debug, PartialEq, Eq, Structural)]
pub enum EvalError {
    DivisionByZero,
}

/// The absolute value of a mathematical integer.
pub open spec fn abs_of(a: int) -> int {
    if a >= 0 {
        a
    } else {
        -a
    }
}

/// Truncating-toward-zero quotient: the magnitude of the quotient is the
/// quotient of the magnitudes, and the sign is negative exactly when the
/// operands' signs differ. Meaningful only for `b != 0`.
pub open spec fn quot_trunc(a: int, b: int) -> int {
    if (a >= 0) == (b >= 0) {
        abs_of(a) / abs_of(b)
    } else {
        -(abs_of(a) / abs_of(b))
    }
}

/// Remainder whose sign follows the dividend: the magnitude is the remainder
/// of the magnitudes, negated when the dividend is negative. Meaningful only
/// for `b != 0`.
pub open spec fn rem_trunc(a: int, b: int) -> int {
    if a >= 0 {
        abs_of(a) % abs_of(b)
    } else {
        -(abs_of(a) % abs_of(b))
    }
}

/// The mathematical evaluator. `None` means that evaluating the tree reaches
/// a `Div` or `Mod` node whose right operand evaluates to zero; otherwise the
/// value is the exact (unbounded) integer result.
pub open spec fn eval_spec(t: Token) -> Option<int>
    decreases t,
{
    match t {
        Token::Int { val } => Some(val as int),
        Token::Plus { left, right } => match (eval_spec(*left), eval_spec(*right)) {
            (Some(a), Some(b)) => Some(a + b),
            _ => None,
        },
        Token::Minus { left, right } => match (eval_spec(*left), eval_spec(*right)) {
            (Some(a), Some(b)) => Some(a - b),
            _ => None,
        },
        Token::Mult { left, right } => match (eval_spec(*left), eval_spec(*right)) {
            (Some(a), Some(b)) => Some(a * b),
            _ => None,
        },
        Token::Div { left, right } => match (eval_spec(*left), eval_spec(*right)) {
            (Some(a), Some(b)) => if b == 0 {
                None
            } else {
                Some(quot_trunc(a, b))
            },
            _ => None,
        },
        Token::Mod { left, right } => match (eval_spec(*left), eval_spec(*right)) {
            (Some(a), Some(b)) => if b == 0 {
                None
            } else {
                Some(rem_trunc(a, b))
            },
            _ => None,
        },
    }
}

/// Every intermediate result of evaluating `t` fits in `i32`, and no `Div` or
/// `Mod` node hits the one overflowing operand pair `(i32::MIN, -1)`. Nodes
/// whose operands are undefined (a zero divisor below them) carry no bound,
/// since evaluation fails there instead of overflowing.
pub open spec fn in_bounds(t: Token) -> bool
    decreases t,
{
    match t {
        Token::Int { .. } => true,
        Token::Plus { left, right } => in_bounds(*left) && in_bounds(*right) && (match (
            eval_spec(*left),
            eval_spec(*right),
        ) {
            (Some(a), Some(b)) => i32::MIN <= a + b <= i32::MAX,
            _ => true,
        }),
        Token::Minus { left, right } => in_bounds(*left) && in_bounds(*right) && (match (
            eval_spec(*left),
            eval_spec(*right),
        ) {
            (Some(a), Some(b)) => i32::MIN <= a - b <= i32::MAX,
            _ => true,
        }),
        Token::Mult { left, right } => in_bounds(*left) && in_bounds(*right) && (match (
            eval_spec(*left),
            eval_spec(*right),
        ) {
            (Some(a), Some(b)) => i32::MIN <= a * b <= i32::MAX,
            _ => true,
        }),
        Token::Div { left, right } => in_bounds(*left) && in_bounds(*right) && (match (
            eval_spec(*left),
            eval_spec(*right),
        ) {
            (Some(a), Some(b)) => !(a == i32::MIN && b == -1),
            _ => true,
        }),
        Token::Mod { left, right } => in_bounds(*left) && in_bounds(*right) && (match (
            eval_spec(*left),
            eval_spec(*right),
        ) {
            (Some(a), Some(b)) => !(a == i32::MIN && b == -1),
            _ => true,
        }),
    }
}

/// The magnitude of an `i32`, widened so that `i32::MIN` is representable.
fn abs_u32(a: i32) -> (r: u32)
    ensures
        r as int == abs_of(a as int),
{
    if a >= 0 {
        a as u32
    } else {
        let wide: i64 = a as i64;
        (-wide) as u32
    }
}

/// Truncating-toward-zero division on `i32`, computed on magnitudes. The
/// operand pair `(i32::MIN, -1)` is the one whose quotient overflows.
fn div_trunc(a: i32, b: i32) -> (q: i32)
    requires
        b != 0,
        !(a == i32::MIN && b == -1),
    ensures
        q as int == quot_trunc(a as int, b as int),
{
    let mag_a = abs_u32(a);
    let mag_b = abs_u32(b);
    proof {
        lemma_div_nonincreasing(mag_a as int, mag_b as int);
        lemma_div_pos_is_pos(mag_a as int, mag_b as int);
    }
    let mag_q = mag_a / mag_b;
    if (a < 0) == (b < 0) {
        proof {
            if mag_a == 0x8000_0000 {
                assert(a == i32::MIN && b <= -2);
                assert(mag_q <= 0x8000_0000u32 / 2) by {
                    vstd::arithmetic::div_mod::lemma_div_is_ordered_by_denominator(
                        0x8000_0000int,
                        2int,
                        mag_b as int,
                    );
                };
            }
        }
        mag_q as i32
    } else {
        let wide: i64 = -(mag_q as i64);
        wide as i32
    }
}

/// Remainder on `i32` whose sign follows the dividend, computed on
/// magnitudes. The result magnitude is below the divisor magnitude, so it
/// always fits.
fn rem_trunc_i32(a: i32, b: i32) -> (r: i32)
    requires
        b != 0,
    ensures
        r as int == rem_trunc(a as int, b as int),
{
    let mag_a = abs_u32(a);
    let mag_b = abs_u32(b);
    proof {
        lemma_mod_bound(mag_a as int, mag_b as int);
    }
    let mag_r = mag_a % mag_b;
    if a < 0 {
        let wide: i64 = -(mag_r as i64);
        wide as i32
    } else {
        mag_r as i32
    }
}

/// Evaluates the tree to its integer value. Total but for the one fatal
/// condition: the result is `Err(DivisionByZero)` exactly when the
/// mathematical evaluation is undefined, and otherwise `Ok` of its value.
pub fn eval(token: &Token) -> (r: Result<i32, EvalError>)
    requires
        in_bounds(*token),
    ensures
        match r {
            Ok(v) => eval_spec(*token) == Some(v as int),
            Err(e) => eval_spec(*token) is None && e == EvalError::DivisionByZero,
        },
    decreases *token,
{
    match token {
        Token::Int { val } => Ok(*val),
        Token::Plus { left, right } => {
            let a = eval(left)?;
            let b = eval(right)?;
            Ok(a + b)
        },
        Token::Minus { left, right } => {
            let a = eval(left)?;
            let b = eval(right)?;
            Ok(a - b)
        },
        Token::Mult { left, right } => {
            let a = eval(left)?;
            let b = eval(right)?;
            Ok(a * b)
        },
        Token::Div { left, right } => {
            let a = eval(left)?;
            let b = eval(right)?;
            if b == 0 {
                Err(EvalError::DivisionByZero)
            } else {
                Ok(div_trunc(a, b))
            }
        },
        Token::Mod { left, right } => {
            let a = eval(left)?;
            let b = eval(right)?;
            if b == 0 {
                Err(EvalError::DivisionByZero)
            } else {
                Ok(rem_trunc_i32(a, b))
            }
        },
    }
}

} // verus!
