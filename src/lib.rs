//! Extraction of the distinct vocabulary of a text, with punctuation
//! stripping, case folding and removal of numeric tokens.
//!
//! The text is split into tokens at spaces and newlines. Each distinct token
//! loses the punctuation at its edges (acronyms excepted), is lower-cased
//! (acronyms and proper nouns excepted), and is dropped if it reads as a
//! number.

pub mod number;
pub mod order;
pub mod tokens;
pub mod vex;
