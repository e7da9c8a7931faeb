//! A small recursive-descent reader for symbolic-expression text.
//!
//! The crate splits raw text into tokens around a configurable set of
//! single-character delimiters, wraps the token sequence in a positional
//! cursor, and builds a nested tree of symbols and parenthesized groups.

pub mod error;
pub mod laws;
pub mod parser;
pub mod text;
pub mod tokenizer;
pub mod tree;

pub use parser::Parser;

pub use error::errorize;
pub use error::ParseError;
pub use tokenizer::Tokenizer;
pub use tree::SexprTree;
