//! Tokenizer and recursive-descent parser for a small subset of C.

pub mod text;
pub mod token;
pub mod parse;
pub mod grammar;
