//! Lexical front end for an exam-style pseudocode language.
//!
//! The library turns a source buffer into an ordered, finite sequence of
//! typed tokens: operators, keywords, separators, identifiers and literal
//! values, closed off by a single end-of-input sentinel.  The literal value
//! model selects, for every integer literal, the narrowest fixed-width
//! representation that holds it losslessly.

pub mod lexer;
pub mod token;
pub mod value;
