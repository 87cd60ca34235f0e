//! Byte-pair-encoding tokenizers with a verified merge-learning engine.

pub mod base_file;
pub mod bbpe;
pub mod bbpe_file;
pub mod bpe;
pub mod bpe_file;
pub mod corpus;
pub mod corpus_size;
pub mod entry_order;
pub mod error;
pub mod first_counts;
pub mod gather;
pub mod heap;
pub mod learner;
pub mod learner_model;
pub mod merge_job;
pub mod merges;
pub mod model_file;
pub mod pair_counts;
pub mod pairs;
pub mod pattern;
pub mod prelude;
pub mod round_trip;
pub mod tally;
pub mod text;
pub mod tokenizer_base;
pub mod traits;
pub mod vocab_manager;
pub mod vocab_store;
pub mod word;
