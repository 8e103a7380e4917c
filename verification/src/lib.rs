//! Core of a byte-pair-encoding tokenizer: text and byte strings are turned
//! into sequences of integer token ranks and back, with every function held
//! to a contract over a mathematical model of the vocabulary.

pub mod bytes;
pub mod error;
pub mod laws;
pub mod merge;
pub mod pattern;
pub mod special;
pub mod syntax;
pub mod table;
pub mod tokenizer;
pub mod unicode;
pub mod unstable;
pub mod vocab;
