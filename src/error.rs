//! The errors that the tokenizer reports.

use vstd::prelude::*;

verus! {

/// Why the tokenizer could not be built from its two artifacts.
#[derive(Debug, PartialEq, Eq)]
pub enum LoadError {
    /// The encoder document is not a JSON object from strings to integers
    /// below 2^16.
    InvalidEncoder,
    /// Two symbols of the encoder document share this token id.
    DuplicateTokenId(u16),
    /// This line (counted from 1) of the merge file has a single field.
    MalformedMerge(usize),
}

/// Why a text could not be encoded.
#[derive(Debug, PartialEq, Eq)]
pub enum EncodeError {
    /// The merge engine produced this symbol, which the vocabulary lacks.
    VocabMiss(String),
}

/// Why a list of token ids could not be decoded.
#[derive(Debug, PartialEq, Eq)]
pub enum DecodeError {
    /// The vocabulary has no symbol with this token id.
    UnknownToken(u16),
    /// This character of a symbol shows no byte.
    UnknownSymbol(char),
    /// The decoded bytes are not UTF-8.
    InvalidUtf8,
}

} // verus!
