//! An arithmetic expression evaluator.
//!
//! A tokenizer turns raw text into a flat sequence of lexical tokens, and a
//! recursive-descent evaluator consumes that sequence to compute a value
//! while enforcing operator precedence, parenthesis nesting, and
//! division/modulo-by-zero checks.  Numbers are exact rationals, so every
//! arithmetic step is verified against its mathematical definition.

pub mod calculator;
pub mod token;
pub mod tokenizer;
pub mod value;
