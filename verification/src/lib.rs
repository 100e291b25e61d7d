//! Lexical front end for a small expression language: numbers,
//! identifiers, arithmetic operators, assignment, call punctuation,
//! comments and whitespace.
//!
//! A [`input::Cursor`] pulls characters one at a time from an in-memory
//! sequence, tracking the absolute position and allowing one character of
//! pushback; the [`lex::Tokenizer`] classifies maximal runs of characters
//! into tokens, each carrying its span, and reports malformed input with
//! one-based line and column coordinates. The module [`stream`] states and
//! proves what holds of whole tokenizations: spans partition the input,
//! runs collapse into single tokens, and recognizable input never fails.
pub mod ast;
pub mod input;
pub mod lex;
pub mod stream;
