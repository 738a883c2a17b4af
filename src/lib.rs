//! A recursive-descent parser for a JSON-like document format, verified against
//! a grammar written as spec functions.
//!
//! Policies: strings are raw text (no escape decoding); an integer literal that
//! is followed by `.`, `e` or `E`, or that does not fit in 64 signed bits, is read
//! as a floating-point literal, kept as its text; `[]` and `{}` are accepted; a
//! key repeated in one object keeps its first place and its last value; nesting
//! deeper than `grammar::MAX_DEPTH` containers fails with `DepthExceeded`.
pub mod error;
pub mod generated;
pub mod grammar;
pub mod laws;
pub mod leaves;
pub mod parser;
pub mod scanner;
pub mod text;
pub mod value;
