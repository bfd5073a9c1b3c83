//! Lexer for a minimal arithmetic-expression language: a `Scanner` that
//! offers one character of lookahead over a byte source, and a `Tokenizer`
//! that groups the characters into identifiers, numbers and operators.

pub mod chars;
pub mod scanner;
pub mod token;
pub mod tokenizer;
