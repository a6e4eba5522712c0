//! A small JSON-style document reader: a lexer that turns a byte buffer into
//! a token sequence, and a recursive-descent parser that turns the tokens into
//! a position-annotated value tree. Both fail fast, returning a diagnostic
//! that carries an exact source span.
//!
//! The library works on bytes: each input byte is one column of source text,
//! and token and string contents are kept as the raw bytes that were read.

pub mod position;
pub mod token_types;
pub mod token;
pub mod error;
pub mod lexer;
pub mod nodes;
pub mod parser;
