//! Two-stage byte-pair-encoding training: a subword stage over whitespace
//! pre-tokenized words, then a superword stage over whole sequences.

pub mod text;
pub mod vocab;
pub mod word;
pub mod word_counts;
pub mod pairs;
pub mod queue;
pub mod engine;
pub mod tokenize;
pub mod alphabet;
pub mod model;
pub mod trainer;
pub mod pretokenize;
pub mod super_trainer;
pub mod laws;
pub mod spelling;
pub mod merge_proofs;
