//! Lexical front end for a Lua-family scripting language: a single-pass,
//! fail-fast tokenizer with exact source-line attribution.
//!
//! The scanner turns a source text into an ordered sequence of tokens, or
//! reports the first lexical error with its line and column.  Its behaviour
//! is specified by a mathematical model of the token grammar (`model`) and
//! the executable scanner (`lexer`) is proved to return exactly what the
//! model says.

pub mod chars;
pub mod laws;
pub mod lexer;
pub mod model;
pub mod token;
