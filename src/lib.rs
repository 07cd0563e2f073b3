//! Relevance core of a small full-text search library: tokenization with
//! byte-exact offsets, a positional inverted index, and the integer corpus
//! statistics that BM25 ranking is computed from.
pub mod document;
pub mod errors;
pub mod indexer;
pub mod rank;
pub mod searcher;
pub mod stem;
pub mod text;
pub mod tokenizer;
