//! A lexer and a parser for a small notation of nested groups.
//!
//! Text is cut into [`Token`]s by [`lex`], and a sequence of tokens is folded
//! into one root [`Expression`] by [`parse`]. Both functions are pure: the
//! result depends on the argument alone.
pub mod error;
pub mod expression;
pub mod lexer;
pub mod parser;
pub mod text;
pub mod token;

pub use error::{LexError, ParseError};
pub use expression::{Expression, Tree};
pub use lexer::lex;
pub use parser::parse;
pub use token::{Token, TokenView};
