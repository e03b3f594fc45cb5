//! The search engine: autocomplete, fuzzy matching and the document index
//! behind one type.

use vstd::prelude::*;
use crate::search::index::{
    countable, indexed, tokenize, tokens_countable, tokens_of, Document, InvertedIndex,
};
use crate::search::lev::{fuzzy_matches, match_view, matches_sorted, try_fuzzy_match};
use crate::search::trie::{
    distinct_children, has_word, inserted, law_insert_distinct, law_insert_words, law_node_words,
    law_walk_concat, lemma_walk_distinct, node_words, suggestions, take_upto, walk, Trie,
    TrieNode,
};
use crate::text::{lowercase, string_views, utf8_len};
use std::collections::HashSet;
use vstd::utf8::encode_utf8;

verus! {

/// `n` is `o` with each of `ws` inserted in turn.
pub open spec fn inserted_all(o: TrieNode, n: TrieNode, ws: Seq<Seq<u8>>) -> bool
    decreases ws.len(),
{
    if ws.len() == 0 {
        n == o
    } else {
        exists|m: TrieNode| inserted_all(o, m, ws.drop_last()) && #[trigger] inserted(m, n, ws.last())
    }
}

/// The byte strings that the trie receives for a sequence of tokens: each is
/// lowercased again and encoded in UTF-8.
pub open spec fn trie_keys(ts: Seq<Seq<char>>) -> Seq<Seq<u8>> {
    ts.map_values(|t: Seq<char>| encode_utf8(lowercase(t)))
}

/// All the sequences of `ss`, one after the other.
pub open spec fn concat_all(ss: Seq<Seq<u64>>) -> Seq<u64>
    decreases ss.len(),
{
    if ss.len() == 0 {
        Seq::empty()
    } else {
        concat_all(ss.drop_last()) + ss.last()
    }
}

/// State of a fuzzy search while it walks the ranked document ids: the
/// results so far, the ids seen, and whether it has stopped.
pub struct FuzzyWalk {
    pub results: Seq<(u64, Seq<char>)>,
    pub seen: Set<u64>,
    pub stopped: bool,
}

/// One id of the walk: an id not seen before adds its document, if stored;
/// the walk stops once it holds `limit` results.
pub open spec fn fuzzy_step(w: FuzzyWalk, id: u64, docs: Map<u64, String>, limit: nat) -> FuzzyWalk {
    if w.stopped {
        w
    } else {
        let results = if !w.seen.contains(id) && docs.contains_key(id) {
            w.results.push((id, docs[id]@))
        } else {
            w.results
        };
        FuzzyWalk { results, seen: w.seen.insert(id), stopped: results.len() >= limit }
    }
}

pub open spec fn fuzzy_walk(ids: Seq<u64>, docs: Map<u64, String>, limit: nat) -> FuzzyWalk
    decreases ids.len(),
{
    if ids.len() == 0 {
        FuzzyWalk { results: Seq::empty(), seen: Set::empty(), stopped: false }
    } else {
        fuzzy_step(fuzzy_walk(ids.drop_last(), docs, limit), ids.last(), docs, limit)
    }
}

proof fn lemma_walk_stopped_extend(a: Seq<u64>, b: Seq<u64>, docs: Map<u64, String>, limit: nat)
    requires
        fuzzy_walk(a, docs, limit).stopped,
    ensures
        fuzzy_walk(a + b, docs, limit) == fuzzy_walk(a, docs, limit),
    decreases b.len(),
{
    if b.len() > 0 {
        lemma_walk_stopped_extend(a, b.drop_last(), docs, limit);
        assert((a + b).drop_last() =~= a + b.drop_last());
    } else {
        assert(a + b =~= a);
    }
}

proof fn lemma_concat_all_add(a: Seq<Seq<u64>>, b: Seq<Seq<u64>>)
    ensures
        concat_all(a + b) =~= concat_all(a) + concat_all(b),
    decreases b.len(),
{
    if b.len() > 0 {
        lemma_concat_all_add(a, b.drop_last());
        assert((a + b).drop_last() =~= a + b.drop_last());
    } else {
        assert(a + b =~= a);
    }
}

proof fn lemma_concat_all_split(s: Seq<Seq<u64>>, i: int, j: int)
    requires
        0 <= i < s.len(),
        0 <= j <= s[i].len(),
    ensures
        concat_all(s) =~= (concat_all(s.take(i)) + s[i].take(j)) + (s[i].skip(j) + concat_all(
            s.skip(i + 1),
        )),
{
    assert(s =~= s.take(i) + (seq![s[i]] + s.skip(i + 1)));
    lemma_concat_all_add(s.take(i), seq![s[i]] + s.skip(i + 1));
    lemma_concat_all_add(seq![s[i]], s.skip(i + 1));
    assert(concat_all(seq![s[i]]) =~= s[i]) by {
        assert(seq![s[i]].drop_last() =~= Seq::<Seq<u64>>::empty());
        assert(concat_all(Seq::<Seq<u64>>::empty()) =~= Seq::<u64>::empty());
        assert(seq![s[i]].last() == s[i]);
        assert(Seq::<u64>::empty() + s[i] =~= s[i]);
    }
    assert(s[i] =~= s[i].take(j) + s[i].skip(j));
}

pub open spec fn list_views(v: Seq<Vec<u64>>) -> Seq<Seq<u64>> {
    v.map_values(|l: Vec<u64>| l@)
}

pub open spec fn result_views(v: Seq<(u64, String)>) -> Seq<(u64, Seq<char>)> {
    v.map_values(|p: (u64, String)| (p.0, p.1@))
}

/// The unified search engine combining autocomplete, fuzzy matching, and full-text search.
pub struct SynapseSearch {
    trie: Trie,
    index: InvertedIndex,
    next_id: u64,
}

/// `n` is the engine `o` after `add(id, text)`: every token went into the
/// trie and the document into the index, and the next automatic id moved
/// past `id`.
pub open spec fn added(o: SynapseSearch, n: SynapseSearch, id: u64, text: Seq<char>) -> bool {
    let ts = tokens_of(text);
    &&& inserted_all(o.trie_root(), n.trie_root(), trie_keys(ts))
    &&& exists|s: String| s@ == text && indexed(o.index_view(), n.index_view(), id, s)
    &&& n.next_id_view() == if id >= o.next_id_view() {
        (id + 1) as u64
    } else {
        o.next_id_view()
    }
}

impl SynapseSearch {
    /// The document index keeps one posting list per token and no token twice.
    #[verifier::type_invariant]
    spec fn consistent_index(self) -> bool {
        self.index.wf()
    }

    pub closed spec fn trie_root(&self) -> TrieNode {
        self.trie.root()
    }

    pub closed spec fn index_view(&self) -> InvertedIndex {
        self.index
    }

    pub closed spec fn next_id_view(&self) -> u64 {
        self.next_id
    }

    /// Create a new empty search engine.
    pub fn new() -> (e: Self)
        ensures
            e.index_view().wf(),
            !e.trie_root().is_terminal,
            e.trie_root().children@.len() == 0,
            e.index_view().doc_count == 0,
            e.index_view().token_views().len() == 0,
            e.index_view().documents@ == Map::<u64, String>::empty(),
            e.next_id_view() == 0,
    {
        Self { trie: Trie::new(), index: InvertedIndex::new(), next_id: 0 }
    }

    /// Add a document with an explicit ID. No token may occur in the text
    /// more often than a `u32` counts its occurrences.
    pub fn add(&mut self, id: u64, text: &str)
        requires
            id < u64::MAX,
            old(self).index_view().doc_count < u64::MAX,
            countable(tokens_of(text@)),
        ensures
            final(self).index_view().wf(),
            added(*old(self), *final(self), id, text@),
    {
        proof {
            use_type_invariant(&*self);
        }
        // Index each word in the trie for autocomplete
        let tokens = tokenize(text);
        let ghost ts = string_views(tokens@);
        let mut trie = Trie::new();
        std::mem::swap(&mut trie, &mut self.trie);
        let ghost start = trie.root();
        let mut k: usize = 0;
        assert(trie_keys(ts).take(0) =~= Seq::<Seq<u8>>::empty());
        while k < tokens.len()
            invariant
                k <= tokens@.len(),
                ts == string_views(tokens@),
                inserted_all(start, trie.root(), trie_keys(ts).take(k as int)),
            decreases tokens.len() - k,
        {
            let ghost before = trie.root();
            trie.insert(tokens[k].as_str());
            proof {
                let keys = trie_keys(ts).take(k + 1);
                assert(keys.drop_last() =~= trie_keys(ts).take(k as int));
                assert(keys.last() == encode_utf8(lowercase(tokens@[k as int]@)));
                assert(inserted(before, trie.root(), keys.last()));
            }
            k = k + 1;
        }
        assert(trie_keys(ts).take(tokens@.len() as int) =~= trie_keys(ts));

        self.trie = trie;

        // Index the full document for ranked search
        let owned = String::from_str(text);
        let ghost owned_copy = owned;
        let mut index = InvertedIndex::new();
        std::mem::swap(&mut index, &mut self.index);
        index.add(Document { id, text: owned });
        self.index = index;

        if id >= self.next_id {
            self.next_id = id + 1;
        }
        assert(indexed(old(self).index, self.index, id, owned_copy));
    }

    /// Add a document when no token of it occurs more often than a `u32`
    /// counts; returns whether it was added. When it was not, nothing changed.
    pub fn try_add(&mut self, id: u64, text: &str) -> (ok: bool)
        requires
            id < u64::MAX,
            old(self).index_view().doc_count < u64::MAX,
        ensures
            ok == countable(tokens_of(text@)),
            ok ==> final(self).index_view().wf() && added(*old(self), *final(self), id, text@),
            !ok ==> *final(self) == *old(self),
    {
        let tokens = tokenize(text);
        if !tokens_countable(&tokens) {
            return false;
        }
        self.add(id, text);
        true
    }

    /// Add a document with an auto-generated ID. Returns the assigned ID.
    pub fn add_auto(&mut self, text: &str) -> (id: u64)
        requires
            old(self).next_id_view() < u64::MAX,
            old(self).index_view().doc_count < u64::MAX,
            countable(tokens_of(text@)),
        ensures
            id == old(self).next_id_view(),
            final(self).index_view().wf(),
            added(*old(self), *final(self), id, text@),
    {
        let id = self.next_id;
        self.add(id, text);
        id
    }

    /// Get prefix-based autocomplete suggestions.
    /// Returns matching tokens (lowercased words), up to `limit`.
    pub fn autocomplete(&self, prefix: &str, limit: usize) -> (res: Vec<String>)
        ensures
            string_views(res@) == match walk(self.trie_root(), encode_utf8(lowercase(prefix@))) {
                Some(sub) => take_upto(
                    suggestions(encode_utf8(lowercase(prefix@)), node_words(sub)),
                    limit as nat,
                ),
                None => Seq::empty(),
            },
            res@.len() <= limit,
            forall|i: int| 0 <= i < res@.len() ==> {
                let b = #[trigger] encode_utf8(res@[i]@);
                let p = encode_utf8(lowercase(prefix@));
                &&& has_word(self.trie_root(), b)
                &&& p.len() <= b.len()
                &&& b.take(p.len() as int) == p
                &&& lowercase(prefix@).len() <= res@[i]@.len()
                &&& res@[i]@.take(lowercase(prefix@).len() as int) == lowercase(prefix@)
            },
    {
        self.trie.autocomplete(prefix, limit)
    }

    /// The indexed tokens within `max_distance` edits of `query`, closest
    /// first: the tokens a fuzzy search visits, in order. `None` when a
    /// lowercase form is too long for the machine's lengths.
    pub fn fuzzy_candidates(&self, query: &str, max_distance: usize) -> (res: Option<
        Vec<(String, usize)>,
    >)
        ensures
            match res {
                Some(ms) => {
                    &&& matches_sorted(match_view(ms@))
                    &&& match_view(ms@).to_multiset() == fuzzy_matches(
                        query@,
                        self.index_view().token_views(),
                        max_distance as nat,
                    ).to_multiset()
                },
                None => !(utf8_len(lowercase(query@)) < usize::MAX && forall|i: int|
                    0 <= i < self.index_view().token_views().len() ==> utf8_len(
                        lowercase(#[trigger] self.index_view().token_views()[i]),
                    ) < usize::MAX),
            },
    {
        let tokens = self.index.all_tokens.as_slice();
        assert(tokens@ == self.index.all_tokens@);
        let res = try_fuzzy_match(query, tokens, max_distance);
        assert(string_views(tokens@) == self.index_view().token_views());
        proof {
            if res is Some {
                let ms = res->0;
                assert(self.index_view().token_views() == string_views(tokens@));
                assert(match_view(ms@).to_multiset() == fuzzy_matches(
                    query@,
                    self.index_view().token_views(),
                    max_distance as nat,
                ).to_multiset());
            } else {
                let tv = self.index_view().token_views();
                if utf8_len(lowercase(query@)) < usize::MAX && forall|i: int|
                    0 <= i < tv.len() ==> utf8_len(lowercase(#[trigger] tv[i])) < usize::MAX {
                    assert forall|i: int| 0 <= i < tokens@.len() implies utf8_len(
                        lowercase(#[trigger] tokens@[i]@),
                    ) < usize::MAX by {
                        assert(tv[i] == tokens@[i]@);
                    }
                }
            }
        }
        res
    }

    /// Collect the documents of a fuzzy search: `ranked[i]` holds, best
    /// first, the ids that ranked search returns for the `i`-th candidate
    /// token. Each id is taken once, with its text, until `limit` results
    /// are held.
    pub fn fuzzy_collect(&self, ranked: &Vec<Vec<u64>>, limit: usize) -> (res: Vec<(u64, String)>)
        ensures
            result_views(res@) == fuzzy_walk(
                concat_all(list_views(ranked@)),
                self.index_view().documents@,
                limit as nat,
            ).results,
    {
        broadcast use vstd::std_specs::hash::group_hash_axioms;

        let ghost docs = self.index.documents@;
        let ghost lists = list_views(ranked@);
        let mut seen: HashSet<u64> = HashSet::new();
        let mut results: Vec<(u64, String)> = Vec::new();
        let mut i: usize = 0;
        assert(lists.take(0) =~= Seq::<Seq<u64>>::empty());
        assert(result_views(results@) =~= Seq::<(u64, Seq<char>)>::empty());
        assert(seen@ =~= Set::<u64>::empty());
        while i < ranked.len()
            invariant
                i <= ranked@.len(),
                docs == self.index.documents@,
                lists == list_views(ranked@),
                ({
                    let w = fuzzy_walk(concat_all(lists.take(i as int)), docs, limit as nat);
                    &&& !w.stopped
                    &&& result_views(results@) == w.results
                    &&& seen@ == w.seen
                }),
            decreases ranked.len() - i,
        {
            let ids = &ranked[i];
            let ghost base = concat_all(lists.take(i as int));
            let mut j: usize = 0;
            assert(base + ids@.take(0) =~= base);
            while j < ids.len()
                invariant
                    i < ranked@.len(),
                    lists == list_views(ranked@),
                    base == concat_all(lists.take(i as int)),
                    ids@ == lists[i as int],
                    j <= ids@.len(),
                    docs == self.index.documents@,
                    ({
                        let w = fuzzy_walk(base + ids@.take(j as int), docs, limit as nat);
                        &&& !w.stopped
                        &&& result_views(results@) == w.results
                        &&& seen@ == w.seen
                    }),
                decreases ids.len() - j,
            {
                let doc_id = ids[j];
                let ghost prev = base + ids@.take(j as int);
                let ghost next = base + ids@.take(j + 1);
                assert(next.drop_last() =~= prev);
                assert(next.last() == doc_id);
                let ghost before = result_views(results@);
                if seen.insert(doc_id) {
                    match self.index.documents.get(&doc_id) {
                        Some(text) => {
                            results.push((doc_id, text.clone()));
                            assert(result_views(results@) =~= before.push((doc_id, docs[doc_id]@)));
                        },
                        None => {},
                    }
                }
                assert(fuzzy_walk(next, docs, limit as nat).results == result_views(results@));
                assert(fuzzy_walk(next, docs, limit as nat).seen == seen@);
                if results.len() >= limit {
                    assert(fuzzy_walk(next, docs, limit as nat).stopped);
                    proof {
                        lemma_concat_all_split(lists, i as int, j + 1);
                        assert(lists.take(i as int) == lists.take(i as int));
                        let rest = ids@.skip(j + 1) + concat_all(lists.skip(i + 1));
                        lemma_walk_stopped_extend(next, rest, docs, limit as nat);
                        assert(concat_all(lists) == next + rest);
                        assert(fuzzy_walk(concat_all(lists), docs, limit as nat).results
                            == result_views(results@));
                    }
                    return results;
                }
                j = j + 1;
            }
            assert(ids@.take(ids@.len() as int) =~= ids@);
            assert(lists.take(i + 1).drop_last() =~= lists.take(i as int));
            i = i + 1;
        }
        assert(lists.take(ranked@.len() as int) =~= lists);
        results
    }

    /// Get the original text of a document by ID.
    pub fn get_document(&self, id: u64) -> (res: Option<&String>)
        ensures
            match res {
                Some(t) => self.index_view().documents@.contains_key(id) && *t
                    == self.index_view().documents@[id],
                None => !self.index_view().documents@.contains_key(id),
            },
    {
        broadcast use vstd::std_specs::hash::group_hash_axioms;

        self.index.documents.get(&id)
    }

    /// Total number of indexed documents.
    pub fn doc_count(&self) -> (n: u64)
        ensures
            n == self.index_view().doc_count,
    {
        self.index.doc_count
    }

    /// The document index, for ranked search.
    pub fn index(&self) -> (idx: &InvertedIndex)
        ensures
            *idx == self.index_view(),
            idx.wf(),
    {
        proof {
            use_type_invariant(self);
        }
        &self.index
    }
}

proof fn lemma_inserted_all(o: TrieNode, n: TrieNode, ws: Seq<Seq<u8>>, v: Seq<u8>)
    requires
        inserted_all(o, n, ws),
    ensures
        has_word(n, v) <==> has_word(o, v) || ws.contains(v),
        distinct_children(o) ==> distinct_children(n),
    decreases ws.len(),
{
    if ws.len() > 0 {
        let m = choose|m: TrieNode| inserted_all(o, m, ws.drop_last()) && #[trigger] inserted(m, n, ws.last());
        lemma_inserted_all(o, m, ws.drop_last(), v);
        law_insert_words(m, n, ws.last(), v);
        if distinct_children(o) {
            law_insert_distinct(m, n, ws.last());
        }
        if ws.drop_last().contains(v) {
            let i = choose|i: int| 0 <= i < ws.drop_last().len() && ws.drop_last()[i] == v;
            assert(ws[i] == v);
        }
        if ws.contains(v) && v != ws.last() {
            let i = choose|i: int| 0 <= i < ws.len() && ws[i] == v;
            assert(i < ws.len() - 1);
            assert(ws.drop_last()[i] == v);
        }
        if v == ws.last() {
            assert(ws[ws.len() - 1] == v);
        }
    } else {
        assert(n == o);
    }
}

/// After a document is added, the autocomplete trie holds the lowercase
/// bytes of every token of its text and every word it held before, and no
/// other word; and its nodes keep distinct children.
pub proof fn law_add_words(o: SynapseSearch, n: SynapseSearch, id: u64, text: Seq<char>, v: Seq<u8>)
    requires
        added(o, n, id, text),
        countable(tokens_of(text)),
    ensures
        has_word(n.trie_root(), v) <==> has_word(o.trie_root(), v) || trie_keys(tokens_of(text)).contains(v),
        distinct_children(o.trie_root()) ==> distinct_children(n.trie_root()),
{
    lemma_inserted_all(o.trie_root(), n.trie_root(), trie_keys(tokens_of(text)), v);
}

/// A trie node without children has distinct children.
pub proof fn law_empty_trie_distinct(n: TrieNode)
    requires
        n.children@.len() == 0,
    ensures
        distinct_children(n),
{
}

/// Autocomplete suggests, limit permitting, exactly the stored words that
/// begin with the prefix: below the node the prefix leads to, the listed
/// words are those that complete the prefix to a stored word.
pub proof fn law_suggestions_complete_prefix(e: SynapseSearch, prefix: Seq<u8>, w: Seq<u8>)
    requires
        distinct_children(e.trie_root()),
        walk(e.trie_root(), prefix) is Some,
    ensures
        node_words(walk(e.trie_root(), prefix)->0).contains(w) <==> has_word(e.trie_root(), prefix + w),
{
    let sub = walk(e.trie_root(), prefix)->0;
    law_walk_concat(e.trie_root(), prefix, w);
    lemma_walk_distinct(e.trie_root(), prefix);
    law_node_words(sub, w);
}


/// A fuzzy search returns each document once, with its stored text, and
/// stops at `limit` results (a limit of 0 lets the first result through,
/// as the walk checks the limit after taking a result).
pub proof fn law_fuzzy_walk(ids: Seq<u64>, docs: Map<u64, String>, limit: nat)
    ensures
        ({
            let r = fuzzy_walk(ids, docs, limit).results;
            &&& forall|i: int, j: int| 0 <= i < j < r.len() ==> (#[trigger] r[i]).0 != (#[trigger] r[j]).0
            &&& forall|i: int| 0 <= i < r.len() ==> docs.contains_key((#[trigger] r[i]).0) && r[i].1 == docs[r[i].0]@
            &&& r.len() <= if limit == 0 { 1 } else { limit }
        }),
{
    lemma_walk_invariant(ids, docs, limit);
}

proof fn lemma_walk_invariant(ids: Seq<u64>, docs: Map<u64, String>, limit: nat)
    ensures
        ({
            let w = fuzzy_walk(ids, docs, limit);
            let r = w.results;
            &&& forall|i: int| 0 <= i < r.len() ==> w.seen.contains((#[trigger] r[i]).0)
            &&& forall|i: int, j: int| 0 <= i < j < r.len() ==> (#[trigger] r[i]).0 != (#[trigger] r[j]).0
            &&& forall|i: int| 0 <= i < r.len() ==> docs.contains_key((#[trigger] r[i]).0) && r[i].1 == docs[r[i].0]@
            &&& !w.stopped ==> r.len() < limit || (limit == 0 && r.len() == 0)
            &&& r.len() <= if limit == 0 { 1 } else { limit }
        }),
    decreases ids.len(),
{
    if ids.len() > 0 {
        lemma_walk_invariant(ids.drop_last(), docs, limit);
        let w = fuzzy_walk(ids.drop_last(), docs, limit);
        let id = ids.last();
        let n = fuzzy_walk(ids, docs, limit);
        if !w.stopped && !w.seen.contains(id) && docs.contains_key(id) {
            let r = n.results;
            assert(r == w.results.push((id, docs[id]@)));
            assert forall|i: int, j: int| 0 <= i < j < r.len() implies (#[trigger] r[i]).0 != (#[trigger] r[j]).0 by {
                if j == r.len() - 1 {
                    assert(r[i] == w.results[i]);
                    assert(w.seen.contains(w.results[i].0));
                } else {
                    assert(r[i] == w.results[i] && r[j] == w.results[j]);
                }
            }
            assert forall|i: int| 0 <= i < r.len() implies n.seen.contains((#[trigger] r[i]).0) by {
                if i < r.len() - 1 {
                    assert(r[i] == w.results[i]);
                    assert(w.seen.contains(w.results[i].0));
                }
            }
            assert forall|i: int| 0 <= i < r.len() implies docs.contains_key((#[trigger] r[i]).0) && r[i].1 == docs[r[i].0]@ by {
                if i < r.len() - 1 {
                    assert(r[i] == w.results[i]);
                }
            }
        } else if !w.stopped {
            assert(n.results == w.results);
            let r = n.results;
            assert forall|i: int| 0 <= i < r.len() implies n.seen.contains((#[trigger] r[i]).0) by {
                assert(w.seen.contains(w.results[i].0));
            }
        }
    } else {
        let w = fuzzy_walk(ids, docs, limit);
        assert(w.results.len() == 0);
    }
}

} // verus!
