# synapse

An embedded key-value store, an in-memory search engine (autocomplete,
typo-tolerant matching, ranked full-text search) and a source-tree import
scanner, written in Verus.

## Layout

- `src/` — the verified library.
  - `store/`: the write-ahead log and sorted-table file formats, the sorted
    in-memory table, and the store's decisions: where a read is answered,
    when and how the in-memory table is written out, what compaction keeps.
    Proved: a log and a table file read back as written, reads after writes
    and deletes, that flushing, compaction and reopening leave every read
    unchanged, and (`history.rs`) that over any run from an empty store
    every key reads as its newest put or delete left it.
  - `search/`: tokenizer, inverted index, Levenshtein distance and fuzzy
    matching, the autocomplete trie, and the engine combining them.
    Proved: the trie holds exactly the inserted words and lists exactly the
    stored words under a prefix, each once, and inserting a stored word
    again, or an ASCII word in another case, changes nothing; tokenizing
    an ASCII text's tokens joined with spaces gives the same tokens; the
    index's tokens are its documents' tokens, each once; a fuzzy match
    within a smaller bound is the beginning of the match within a larger
    one; a fuzzy search returns each document once;
    edit distance is symmetric and bounded.
  - `code/`: import scanning per language (what a line yields is verified
    over what the patterns capture on it), path and import resolution, and
    the dependency graph of a scanned tree.
  - `bridge.rs`: base64 and the JSON documents of the host-language bridge.
- `tests/` — tests of the library.
- `app/` — the program around the library: the scanner's command line, the
  store's files on disk, TF-IDF scoring (floating point), and the C bridge.
