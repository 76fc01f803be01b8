//! A small arithmetic-expression toolchain: a string-to-tree parser with
//! fixed operator-priority splitting, a tree-to-integer evaluator with
//! truncating division, and a value-preserving tree simplifier.

pub mod eval;
pub mod parse;
pub mod simplify;
pub mod token;

pub use eval::eval;
pub use eval::EvalError;
pub use parse::parse;
pub use parse::parse_div;
pub use parse::parse_int;
pub use parse::parse_minus;
pub use parse::parse_mod;
pub use parse::parse_mult;
pub use parse::parse_plus;
pub use parse::split_at_last_occurrence;
pub use simplify::simplify;
pub use token::Token;
