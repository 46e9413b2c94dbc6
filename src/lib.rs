//! Symbolic rewriting of algebraic expressions with associative-commutative
//! operators: expressions, matching, replacement and saturation.

pub mod expression;
pub mod order;
pub mod binding;
pub mod replace;
pub mod pattern;
pub mod rewrite;
pub mod text;
pub mod solve;
