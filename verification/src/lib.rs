//! Builds a ranked word-frequency table from a multistream encyclopedia
//! archive: index lines are grouped into blocks by byte offset, each block's
//! markup is tokenized into normalized words, and per-block counts are merged
//! into one histogram filtered by a reference vocabulary.

pub mod chars;
pub mod tokenizer;
pub mod strip;
pub mod counts;
pub mod index;
pub mod vocab;
pub mod blocks;
pub mod extract;
pub mod output;
