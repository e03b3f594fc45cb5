use synapse::search::engine::SynapseSearch;
use synapse::search::index::tokenize;
use synapse::search::trie::Trie;
use synapse::text::{is_whitespace, trim};

#[test]
fn whitespace_is_the_white_space_property() {
    for v in 0u32..=0x10FFFF {
        if let Some(c) = char::from_u32(v) {
            assert_eq!(is_whitespace(c), c.is_whitespace(), "code point {:#x}", v);
        }
    }
}

#[test]
fn trim_matches_str_trim() {
    for s in ["  a b  ", "\u{3000}x\u{85}", "", " \t\n", "é ", "\u{200B}y"] {
        assert_eq!(trim(s), s.trim());
    }
}

#[test]
fn autocomplete_returns_non_ascii_words_whole() {
    let mut t = Trie::new();
    t.insert("Café");
    t.insert("cafeteria");
    t.insert("naïve");
    assert_eq!(t.autocomplete("caf", 5), vec!["café", "cafeteria"]);
    assert_eq!(t.autocomplete("CAFÉ", 5), vec!["café"]);
    assert_eq!(t.autocomplete("na", 5), vec!["naïve"]);
    assert_eq!(t.autocomplete("caf", 1), vec!["café"]);

    let mut engine = SynapseSearch::new();
    engine.add(1, "Crème brûlée à la française");
    assert_eq!(engine.autocomplete("cr", 5), vec!["crème"]);
    assert_eq!(engine.autocomplete("brû", 5), vec!["brûlée"]);
    assert_eq!(engine.autocomplete("fr", 5), vec!["française"]);
}

#[test]
fn tokenize_is_stable_on_its_own_joined_output() {
    for text in ["Hello, World! 42 is the ANSWER", "a b c", "", "x-ray X_Ray (MIXED)case99", "Rust is FAST and fast"] {
        let once = tokenize(text);
        assert_eq!(tokenize(&once.join(" ")), once, "{}", text);
    }
}

#[test]
fn trie_insert_ignores_ascii_case() {
    let mut t1 = Trie::new();
    let mut t2 = Trie::new();
    for w in ["Rust", "rustacean", "Go"] {
        t1.insert(w);
        t2.insert(w);
        t2.insert(&w.to_ascii_uppercase());
    }
    for p in ["", "r", "RU", "rust", "g", "x"] {
        for n in [0, 1, 5] {
            assert_eq!(t1.autocomplete(p, n), t2.autocomplete(p, n));
        }
    }
    assert_eq!(t2.autocomplete("", 10), vec!["rust", "rustacean", "go"]);
}

#[test]
fn engine_try_add_adds_countable_documents() {
    let mut engine = SynapseSearch::new();
    assert!(engine.try_add(4, "Verified Rust"));
    assert_eq!(engine.doc_count(), 1);
    assert_eq!(engine.autocomplete("ver", 5), vec!["verified"]);
}
