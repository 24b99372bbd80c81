//! A byte-pair-encoding tokenizer compatible with the GPT-2 vocabulary.
//!
//! Text is cut into chunks by the pre-tokenizer, each chunk's UTF-8 bytes are
//! shown as printable symbols by the byte codec, the merge engine joins
//! adjacent symbols by rank, and the vocabulary turns the merged symbols into
//! token ids. Decoding runs the other way.

pub mod bpe;
pub mod classes;
pub mod codec;
pub mod error;
pub mod merges;
pub mod pat;
pub mod routes;
pub mod text;
pub mod tokenizer;
pub mod vocab;

pub use crate::error::{DecodeError, EncodeError, LoadError};
pub use crate::pat::pat;
pub use crate::routes::{hello, index};
pub use crate::tokenizer::{TokenizeOutput, Tokenizer};
