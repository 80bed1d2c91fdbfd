pub mod consume;
pub mod iter;
pub mod lex;
pub mod pattern;
