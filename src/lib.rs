//! A lexer for a small expression language: it turns source text into
//! classified tokens, each tagged with the line and column where it starts.
pub mod laws;
pub mod lexer;
pub mod token;

pub use lexer::Lexer;
pub use token::{lookup_ident, Token, TokenType};
