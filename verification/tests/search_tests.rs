use synapse::search::engine::SynapseSearch;
use synapse::search::index::{tokenize, Document, InvertedIndex};
use synapse::search::lev::{fuzzy_match, levenshtein_distance};
use synapse::search::trie::Trie;

#[test]
fn test_tokenize() {
    let tokens = tokenize("Hello, World! This is a test-123.");
    assert!(tokens.contains(&"hello".to_string()));
    assert!(tokens.contains(&"world".to_string()));
    assert!(tokens.contains(&"test".to_string()));
    assert!(tokens.contains(&"123".to_string()));
    // Single char "a" should be filtered out
    assert!(!tokens.contains(&"a".to_string()));
}

#[test]
fn test_levenshtein_basic() {
    assert_eq!(levenshtein_distance(b"kitten", b"sitting"), 3);
    assert_eq!(levenshtein_distance(b"", b"abc"), 3);
    assert_eq!(levenshtein_distance(b"abc", b"abc"), 0);
    assert_eq!(levenshtein_distance(b"abc", b"ab"), 1);
    assert_eq!(levenshtein_distance(b"iphone", b"iphne"), 1);
}

#[test]
fn test_fuzzy_match() {
    let candidates = vec![
        "iPhone".to_string(),
        "iPad".to_string(),
        "iPod".to_string(),
        "Android".to_string(),
        "Windows".to_string(),
    ];

    let results = fuzzy_match("iphne", &candidates, 2);
    assert!(!results.is_empty());
    assert_eq!(results[0].0, "iPhone"); // Closest match

    let results = fuzzy_match("androd", &candidates, 2);
    assert!(!results.is_empty());
    assert_eq!(results[0].0, "Android");

    let results = fuzzy_match("xyz123", &candidates, 1);
    assert!(results.is_empty());
}

#[test]
fn test_trie_autocomplete() {
    let mut trie = Trie::new();
    trie.insert("apple");
    trie.insert("application");
    trie.insert("apply");
    trie.insert("banana");
    trie.insert("band");

    let results = trie.autocomplete("app", 10);
    assert!(results.contains(&"apple".to_string()));
    assert!(results.contains(&"application".to_string()));
    assert!(results.contains(&"apply".to_string()));
    assert!(!results.contains(&"banana".to_string()));

    let results = trie.autocomplete("ban", 10);
    assert!(results.contains(&"banana".to_string()));
    assert!(results.contains(&"band".to_string()));
    assert_eq!(results.len(), 2);

    let results = trie.autocomplete("xyz", 10);
    assert!(results.is_empty());
}

#[test]
fn tokenize_keeps_order_and_repeats() {
    // Pieces of one byte are dropped; a two-byte character is kept.
    let tokens = tokenize("Go go GO! é x 42");
    assert_eq!(tokens, vec!["go", "go", "go", "é", "42"]);
    assert!(tokenize("").is_empty());
    assert!(tokenize("a b c").is_empty());
}

#[test]
fn levenshtein_is_symmetric_and_bounded() {
    assert_eq!(levenshtein_distance(b"flaw", b"lawn"), 2);
    assert_eq!(levenshtein_distance(b"lawn", b"flaw"), 2);
    assert_eq!(levenshtein_distance(b"abc", b""), 3);
    assert_eq!(levenshtein_distance(b"", b""), 0);
    assert_eq!(levenshtein_distance(b"abcdef", b"azced"), 3);
}

#[test]
fn fuzzy_match_sorts_by_distance_then_name() {
    let candidates = vec!["bat".to_string(), "cat".to_string(), "hat".to_string(), "cart".to_string()];
    let results = fuzzy_match("cat", &candidates, 1);
    let names: Vec<(String, usize)> = results;
    assert_eq!(
        names,
        vec![
            ("cat".to_string(), 0),
            ("bat".to_string(), 1),
            ("cart".to_string(), 1),
            ("hat".to_string(), 1),
        ]
    );
}

#[test]
fn trie_lists_words_in_insertion_tree_order_up_to_limit() {
    let mut trie = Trie::new();
    trie.insert("Car");
    trie.insert("cart");
    trie.insert("care");
    trie.insert("car");
    assert_eq!(trie.autocomplete("CA", 10), vec!["car", "cart", "care"]);
    assert_eq!(trie.autocomplete("car", 2), vec!["car", "cart"]);
    assert_eq!(trie.autocomplete("", 10), vec!["car", "cart", "care"]);
    assert!(trie.autocomplete("car", 0).is_empty());
}

#[test]
fn index_counts_and_lists_postings() {
    let mut idx = InvertedIndex::new();
    idx.add(Document { id: 1, text: "Rust programming language".to_string() });
    idx.add(Document { id: 2, text: "Go programming language".to_string() });
    idx.add(Document { id: 3, text: "Rust is fast and fast".to_string() });
    assert_eq!(idx.doc_count, 3);
    assert_eq!(
        idx.all_tokens,
        vec!["rust", "programming", "language", "go", "is", "fast", "and"]
    );
    let lists = idx.query_postings("rust fast unknown");
    assert_eq!(lists, vec![vec![(1, 1), (3, 1)], vec![(3, 2)]]);
    assert!(idx.query_postings("").is_empty());
    assert_eq!(idx.documents.get(&2).map(|s| s.as_str()), Some("Go programming language"));
}

#[test]
fn engine_autocomplete_fuzzy_and_counts() {
    let mut engine = SynapseSearch::new();
    engine.add(1, "iPhone 15 Pro Max");
    engine.add(2, "Samsung Galaxy S24 Ultra");
    engine.add(3, "Google Pixel 9 Pro");
    engine.add(4, "OnePlus 12");

    let suggestions = engine.autocomplete("iph", 5);
    assert_eq!(suggestions, vec!["iphone"]);
    let suggestions = engine.autocomplete("sam", 5);
    assert!(suggestions.contains(&"samsung".to_string()));

    let candidates = engine.fuzzy_candidates("iphne", 2).unwrap();
    assert_eq!(candidates[0], ("iphone".to_string(), 1));

    // The documents of the ranked lists, each once, up to the limit.
    let ranked = vec![vec![1, 3], vec![3, 2], vec![4]];
    let hits = engine.fuzzy_collect(&ranked, 3);
    let ids: Vec<u64> = hits.iter().map(|h| h.0).collect();
    assert_eq!(ids, vec![1, 3, 2]);
    assert_eq!(hits[0].1, "iPhone 15 Pro Max");

    assert_eq!(engine.doc_count(), 4);
    assert_eq!(engine.get_document(3).map(|s| s.as_str()), Some("Google Pixel 9 Pro"));
    assert!(engine.get_document(9).is_none());
}

#[test]
fn engine_assigns_ids_after_the_largest() {
    let mut engine = SynapseSearch::new();
    assert_eq!(engine.add_auto("first doc"), 0);
    engine.add(10, "tenth doc");
    assert_eq!(engine.add_auto("next doc"), 11);
    assert_eq!(engine.doc_count(), 3);
    // Every token of an added text becomes a suggestion.
    assert_eq!(engine.autocomplete("ten", 10), vec!["tenth"]);
    assert_eq!(engine.autocomplete("do", 10), vec!["doc"]);
}

/// Ranked search as the program computes it: TF-IDF over the postings that
/// the index finds for the query.
fn ranked_ids(engine: &SynapseSearch, query: &str, limit: usize) -> Vec<u64> {
    let index = engine.index();
    let mut scores: Vec<(u64, f64)> = Vec::new();
    for postings in index.query_postings(query) {
        let idf = (index.doc_count as f64 / postings.len() as f64).ln().max(0.1);
        for (doc_id, tf) in postings {
            let s = (1.0 + (tf as f64).ln()) * idf;
            match scores.iter_mut().find(|e| e.0 == doc_id) {
                Some(e) => e.1 += s,
                None => scores.push((doc_id, s)),
            }
        }
    }
    scores.sort_by(|a, b| b.1.partial_cmp(&a.1).unwrap_or(std::cmp::Ordering::Equal));
    scores.truncate(limit);
    scores.into_iter().map(|e| e.0).collect()
}

fn fuzzy(engine: &SynapseSearch, query: &str, max_distance: usize, limit: usize) -> Vec<(u64, String)> {
    let matches = engine.fuzzy_candidates(query, max_distance).unwrap();
    let ranked: Vec<Vec<u64>> = matches.iter().map(|(t, _)| ranked_ids(engine, t, limit)).collect();
    engine.fuzzy_collect(&ranked, limit)
}

#[test]
fn test_full_engine() {
    let mut engine = SynapseSearch::new();
    engine.add(1, "iPhone 15 Pro Max");
    engine.add(2, "Samsung Galaxy S24 Ultra");
    engine.add(3, "Google Pixel 9 Pro");
    engine.add(4, "OnePlus 12");

    // Autocomplete
    let suggestions = engine.autocomplete("iph", 5);
    assert!(suggestions.contains(&"iphone".to_string()));

    let suggestions = engine.autocomplete("sam", 5);
    assert!(suggestions.contains(&"samsung".to_string()));

    // Fuzzy search with typo
    let results = fuzzy(&engine, "iphne", 2, 10);
    assert!(!results.is_empty());
    assert_eq!(results[0].0, 1); // iPhone doc

    let results = fuzzy(&engine, "samung", 2, 10);
    assert!(!results.is_empty());
    assert_eq!(results[0].0, 2); // Samsung doc

    // Full-text search
    let ids = ranked_ids(&engine, "pro", 10);
    assert!(ids.contains(&1)); // iPhone 15 Pro Max
    assert!(ids.contains(&3)); // Google Pixel 9 Pro
    assert!(!ids.contains(&2)); // Samsung doesn't have "pro"

    assert_eq!(engine.doc_count(), 4);
}

#[test]
fn fuzzy_collect_checks_the_limit_after_taking_a_result() {
    let mut engine = SynapseSearch::new();
    engine.add(1, "alpha beta");
    engine.add(2, "beta gamma");
    let hits = engine.fuzzy_collect(&vec![vec![1, 2], vec![2, 1]], 0);
    assert_eq!(hits.len(), 1);
    let hits = engine.fuzzy_collect(&vec![vec![2, 7], vec![2, 1]], 5);
    let ids: Vec<u64> = hits.iter().map(|h| h.0).collect();
    assert_eq!(ids, vec![2, 1]);
}

fn index_ranked_ids(idx: &InvertedIndex, query: &str, limit: usize) -> Vec<u64> {
    let mut scores: Vec<(u64, f64)> = Vec::new();
    for postings in idx.query_postings(query) {
        let idf = (idx.doc_count as f64 / postings.len() as f64).ln().max(0.1);
        for (doc_id, tf) in postings {
            let s = (1.0 + (tf as f64).ln()) * idf;
            match scores.iter_mut().find(|e| e.0 == doc_id) {
                Some(e) => e.1 += s,
                None => scores.push((doc_id, s)),
            }
        }
    }
    scores.sort_by(|a, b| b.1.partial_cmp(&a.1).unwrap_or(std::cmp::Ordering::Equal));
    scores.truncate(limit);
    scores.into_iter().map(|e| e.0).collect()
}

#[test]
fn test_index_search() {
    let mut idx = InvertedIndex::new();
    idx.add(Document { id: 1, text: "Rust programming language".to_string() });
    idx.add(Document { id: 2, text: "Go programming language".to_string() });
    idx.add(Document { id: 3, text: "Rust is fast and safe".to_string() });

    let ids = index_ranked_ids(&idx, "rust", 10);
    assert!(!ids.is_empty());
    // Both doc 1 and 3 mention "rust"
    assert!(ids.contains(&1));
    assert!(ids.contains(&3));

    let ids = index_ranked_ids(&idx, "programming language", 10);
    assert!(ids.contains(&1));
    assert!(ids.contains(&2));
}

#[test]
fn fuzzy_match_with_a_smaller_bound_is_a_prefix() {
    let candidates = vec![
        "cart".to_string(),
        "cat".to_string(),
        "dog".to_string(),
        "cab".to_string(),
        "cast".to_string(),
        "coat".to_string(),
        "at".to_string(),
    ];
    let wide = fuzzy_match("cat", &candidates, 2);
    assert_eq!(
        wide,
        vec![
            ("cat".to_string(), 0),
            ("at".to_string(), 1),
            ("cab".to_string(), 1),
            ("cart".to_string(), 1),
            ("cast".to_string(), 1),
            ("coat".to_string(), 1),
        ]
    );
    for bound in 0..3 {
        let narrow = fuzzy_match("cat", &candidates, bound);
        assert!(narrow.len() <= wide.len());
        assert_eq!(narrow[..], wide[..narrow.len()]);
        assert!(wide[narrow.len()..].iter().all(|m| m.1 > bound));
    }
    assert_eq!(fuzzy_match("cat", &candidates, 0), vec![("cat".to_string(), 0)]);
}

#[test]
fn trie_insert_of_a_stored_word_changes_no_answer() {
    let mut once = Trie::new();
    once.insert("café");
    once.insert("car");
    once.insert("cart");
    let before: Vec<Vec<String>> = ["", "c", "ca", "car", "caf", "x"].iter().map(|p| once.autocomplete(p, 10)).collect();
    once.insert("car");
    once.insert("café");
    let after: Vec<Vec<String>> = ["", "c", "ca", "car", "caf", "x"].iter().map(|p| once.autocomplete(p, 10)).collect();
    assert_eq!(before, after);
    assert_eq!(after[0], vec!["café", "car", "cart"]);
}

#[test]
fn index_tokens_are_every_documents_tokens_once() {
    let mut idx = InvertedIndex::new();
    idx.add(Document { id: 7, text: "the cat and the hat".to_string() });
    idx.add(Document { id: 8, text: "The Hat, the BAT!".to_string() });
    idx.add(Document { id: 9, text: "".to_string() });
    assert_eq!(idx.all_tokens, vec!["the", "cat", "and", "hat", "bat"]);
    assert_eq!(idx.doc_count, 3);
}
