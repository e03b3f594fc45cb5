//! Synapse: an embedded key-value store, an in-memory search engine with
//! autocomplete and typo-tolerant matching, and a source-tree scanner that
//! builds an import graph.
//!
//! - `store`: the write-ahead log and sorted-table formats, the in-memory
//!   table, and the store's decisions (reads, flushes, compaction).
//! - `search`: tokenizer, inverted index, Levenshtein distance, prefix trie
//!   and the engine that combines them.
//! - `code`: import scanning, path resolution and the dependency graph.
//! - `bridge`: base64 and JSON framing of the host-language bridge.
//! - `order`, `text`: byte-string order and text primitives.

pub mod order;
pub mod text;
pub mod search;
pub mod store;
pub mod code;
pub mod bridge;
