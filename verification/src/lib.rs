//! A lexer-specification compiler and its matching engine.
//!
//! Rule text in a small regex-like language is parsed into pattern trees
//! ([`pattern`]), and a set of such rules cuts input text into tokens by
//! longest match ([`lex`]).

pub mod digits;
pub mod error;
pub mod iter;
pub mod lex;
pub mod pattern;
pub mod ser;
pub mod store;
pub mod text;
pub mod util;
