//! A tokenizer and recursive-descent parser for sums of non-negative
//! integers, `E := T '+' E | T` with `T := NUMBER`.
pub mod token;
pub mod lexer;
pub mod parser;
pub mod pipeline;
