//! A lexical scanner for a small scripting language.
//!
//! [`lex`] turns a text into its tokens in one pass from left to right, or
//! into the error for the first character at which no rule applies. What it
//! returns is stated by [`grammar::scan`], a function on the bytes of the
//! text, and proved; [`laws`] holds what follows for every text.
//!
//! Places are counted in bytes of the UTF-8 encoding: the offset of a token
//! is the number of bytes between the start of its line and its first byte.

pub mod bytes;
pub mod cursor;
pub mod grammar;
pub mod laws;
pub mod lexer;
pub mod position;
pub mod text;

pub use lexer::{lex, LexError, LexErrorKind, Token, TokenType};
