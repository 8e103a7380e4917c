//! The ways in which the tokenizer can fail.

use vstd::prelude::*;

verus! {

/// What went wrong.
#[derive(Clone, Copy, Debug, PartialEq, Eq, Structural)]
pub enum BpeError {
    /// Two byte strings of the vocabulary share a rank, or one of the two
    /// vocabularies lists a key twice.
    InvalidVocabulary,
    /// A pattern does not compile.
    InvalidPattern,
    /// A byte string or a rank is in neither vocabulary, or a piece of
    /// text cannot be cut into tokens of the vocabulary.
    TokenNotFound,
    /// The regular-expression engine gave up during a search, or reported
    /// a match that is no part of the text.
    MatchFailed,
}

} // verus!
