//! Tokenizer, operator-precedence parser and evaluator for flat arithmetic
//! expressions.
//!
//! The library turns a byte sequence into tokens ([`lexer`]), tokens into an
//! expression tree ([`parser`]), and a tree into a value ([`eval`]). It holds
//! no arithmetic of its own: a number is carried as the range of input bytes
//! that spell it, and the caller's functions say what a number is worth and
//! what the operators do. [`grammar`] proves what the trees mean.

pub mod eval;
pub mod grammar;
pub mod lexer;
pub mod parser;
pub mod precedence;
