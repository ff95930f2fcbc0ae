//! Front end of a small expression language: a tokenizer that turns ASCII
//! source text into tokens, and a recursive-descent parser that turns those
//! tokens into precedence-correct expression trees.
pub mod ast;
pub mod numeral;
pub mod tokenizer;

pub use ast::{ASTNode, ASTParser, NodeView, ParseError};
pub use tokenizer::{InvalidTokenError, Token, TokenView, Tokenizer};
