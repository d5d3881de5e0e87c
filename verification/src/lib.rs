//! A calculator for flat infix expressions over 32-bit integers.
//!
//! An expression is a run of decimal literals separated by the operators
//! `+ - * /`, without parentheses, signs or blanks.  `tokenize_string` turns
//! the text into tokens, `evaluate_expression` reduces the tokens to a single
//! integer with two stacks, `*` and `/` binding tighter than `+` and `-`, and
//! operators of equal rank grouping to the left.
//!
//! Nothing guards against overflow: a literal or a result that does not fit
//! in an `i32` wraps around.
pub mod parser;
