//! Layout generation: encodings of keys and characters, corpora, metrics and
//! the searches over layouts.

pub mod layout;
pub mod hill_climb;

pub mod exhaustive;
pub mod not_quite_anneal;
pub mod encoding;
pub mod layout_encoding;
pub mod metric;
pub mod corpus_set;
pub mod generator;
