//! A lossless concrete-syntax-tree parser for a small expression language.
//!
//! Text is split into lexemes by [`lexer`], the expression parser in
//! [`parser`] records the shape of the tree as an event log, and the sink
//! replays that log into an immutable `rowan` green tree.

pub mod lexer;
pub mod parser;
pub mod syntax;
