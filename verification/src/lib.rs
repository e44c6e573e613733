//! A parser for a small expression language: arithmetic, comparisons, boolean
//! logic, string, array and object literals, member and index access, and
//! pipe-style transforms. Text goes in, a syntax tree or one error comes out.
//!
//! `text` and `decimal` hold what the lexer needs of characters and numbers,
//! `token` and `lexer` turn text into tokens, `grammar` states which tree a
//! sequence of tokens has, `parser` builds it, and `error` says what a failed
//! parse reports. `spacing` and `numeral` state what holds of every text.

pub mod ast;
pub mod decimal;
pub mod error;
pub mod grammar;
pub mod lexer;
pub mod numeral;
pub mod parser;
pub mod spacing;
pub mod text;
pub mod token;

pub use error::ParseError;
pub use parser::Parser;
pub use token::Token;
