//! Compiles keys, characters and weights into index tensors.

pub mod encoding;
pub mod compiled_ngram_analyzer;
pub mod map_encoding;
