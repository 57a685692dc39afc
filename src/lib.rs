//! Keyboard layout generation: n-gram counting with exact contraction and
//! character expansion, index encodings, a compiled dense/sparse analyzer and
//! permutation searches over layouts with a pinned prefix.

pub mod compilation;
pub mod expansion;
pub mod finger;
pub mod generation;
pub mod indexes;
pub mod keyboard;
pub mod ngram_data;
pub mod table;
pub mod tensor;
pub mod windows;

pub use compilation::compiled_ngram_analyzer::CompiledNgramAnalyzer;
pub use compilation::encoding::EncodingError;
pub use compilation::map_encoding::{MapEncoding, MapEncodingError};
pub use expansion::{check_expansion, expand_first, expand_full};
pub use finger::{Finger, FingerKind, Hand};
pub use generation::corpus_set::CorpusSet;
pub use generation::exhaustive::exhaustive;
pub use generation::generator::{Generator, InvalidPin};
pub use generation::hill_climb::hill_climb;
pub use generation::layout_encoding::{InvalidLayoutEncoding, LayoutEncoding};
pub use generation::metric::Metric;
pub use generation::not_quite_anneal::{anneal_step, not_quite_anneal};
pub use indexes::Indexes;
pub use keyboard::{sfb_distance, Key, Layout};
pub use ngram_data::{NgramData, NgramError};
pub use table::Table;
pub use windows::{windows, Windows};
