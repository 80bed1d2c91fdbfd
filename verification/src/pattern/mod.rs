pub mod parse;
pub mod pattern;
