//! The search engine: tokenizer and inverted index, edit distance and fuzzy
//! matching, the autocomplete trie, and the engine over all three.

pub mod lev;
pub mod index;
pub mod trie;
pub mod engine;
