//! A lexical analyser: turns a sequence of characters into typed tokens
//! (operators, punctuation, identifiers, keywords, number and string
//! literals), skipping whitespace between them.
use vstd::prelude::*;

pub mod token;
pub mod rules;
pub mod lexer;
pub mod laws;
pub mod spacing;

pub use lexer::Lexer;
pub use token::{LexerError, Token, TokenType};
