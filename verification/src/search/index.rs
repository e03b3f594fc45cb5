//! Tokenizer and inverted index: token -> documents that contain it.

use vstd::prelude::*;
use crate::text::{
    is_ascii_text, lemma_ascii_lowercase, lower_ascii_char, alphanumeric, chars_of, has_two_utf8_bytes, is_alphanumeric, lowercase, push_char, string_views,
    to_lowercase, utf8_len,
};
use std::collections::HashMap;

verus! {

/// The pieces that splitting `s` at every non-alphanumeric character yields,
/// as `str::split` yields them: empty pieces included, one more piece than
/// there are separators.
pub open spec fn split_pieces(s: Seq<char>) -> Seq<Seq<char>>
    decreases s.len(),
{
    if s.len() == 0 {
        seq![Seq::<char>::empty()]
    } else {
        let p = split_pieces(s.drop_last());
        if !alphanumeric(s.last()) {
            p.push(Seq::<char>::empty())
        } else {
            p.update(p.len() - 1, p.last().push(s.last()))
        }
    }
}

/// A piece is kept as a token when its UTF-8 encoding has at least two bytes.
pub open spec fn is_token(p: Seq<char>) -> bool {
    utf8_len(p) >= 2
}

/// The pieces that are tokens, in order.
pub open spec fn keep_tokens(ps: Seq<Seq<char>>) -> Seq<Seq<char>>
    decreases ps.len(),
{
    if ps.len() == 0 {
        Seq::empty()
    } else {
        let rest = keep_tokens(ps.drop_last());
        if is_token(ps.last()) {
            rest.push(ps.last())
        } else {
            rest
        }
    }
}

/// The tokens of a text: the pieces of its lowercase form, short pieces dropped.
pub open spec fn tokens_of(text: Seq<char>) -> Seq<Seq<char>> {
    keep_tokens(split_pieces(lowercase(text)))
}

proof fn lemma_keep_tokens_push(s: Seq<Seq<char>>, x: Seq<char>)
    ensures
        keep_tokens(s.push(x)) == (if is_token(x) {
            keep_tokens(s).push(x)
        } else {
            keep_tokens(s)
        }),
{
    assert(s.push(x).drop_last() =~= s);
}

/// Tokenize text: lowercase, split on non-alphanumeric, filter short tokens.
pub fn tokenize(text: &str) -> (tokens: Vec<String>)
    ensures
        string_views(tokens@) == tokens_of(text@),
{
    let lower = to_lowercase(text);
    let ghost cs = lower@;
    let mut tokens: Vec<String> = Vec::new();
    let mut cur = String::new();
    let ghost mut done: Seq<Seq<char>> = Seq::empty();
    let chars = chars_of(lower.as_str());
    let n = chars.len();
    let mut i: usize = 0;
    assert(cs.take(0) =~= Seq::<char>::empty());
    while i < n
        invariant
            n == cs.len(),
            cs == lower@,
            chars@ == cs,
            i <= n,
            split_pieces(cs.take(i as int)) == done.push(cur@),
            string_views(tokens@) == keep_tokens(done),
        decreases n - i,
    {
        let c = chars[i];
        assert(cs.take(i + 1).drop_last() =~= cs.take(i as int));
        if is_alphanumeric(c) {
            push_char(&mut cur, c);
        } else {
            proof {
                lemma_keep_tokens_push(done, cur@);
            }
            let ghost piece = cur@;
            if has_two_utf8_bytes(cur.as_str()) {
                tokens.push(cur);
                assert(string_views(tokens@) =~= keep_tokens(done).push(piece));
            }
            proof {
                done = done.push(piece);
            }
            cur = String::new();
            assert(split_pieces(cs.take(i + 1)) =~= done.push(cur@));
        }
        i = i + 1;
    }
    assert(cs.take(n as int) =~= cs);
    proof {
        lemma_keep_tokens_push(done, cur@);
    }
    if has_two_utf8_bytes(cur.as_str()) {
        let ghost piece = cur@;
        tokens.push(cur);
        assert(string_views(tokens@) =~= keep_tokens(done).push(
            piece,
        ));
    }
    tokens
}


/// How many times `t` occurs in `ts`.
pub open spec fn occurrences(ts: Seq<Seq<char>>, t: Seq<char>) -> nat
    decreases ts.len(),
{
    if ts.len() == 0 {
        0
    } else {
        occurrences(ts.drop_last(), t) + (if ts.last() == t {
            1nat
        } else {
            0nat
        })
    }
}

/// The distinct elements of `ts`, in the order of their first occurrence.
pub open spec fn distinct_in_order(ts: Seq<Seq<char>>) -> Seq<Seq<char>>
    decreases ts.len(),
{
    if ts.len() == 0 {
        Seq::empty()
    } else {
        let d = distinct_in_order(ts.drop_last());
        if d.contains(ts.last()) {
            d
        } else {
            d.push(ts.last())
        }
    }
}

/// The elements of `ts` that `known` does not hold, in order.
pub open spec fn unknown_in(ts: Seq<Seq<char>>, known: Seq<Seq<char>>) -> Seq<Seq<char>>
    decreases ts.len(),
{
    if ts.len() == 0 {
        Seq::empty()
    } else {
        let u = unknown_in(ts.drop_last(), known);
        if known.contains(ts.last()) {
            u
        } else {
            u.push(ts.last())
        }
    }
}

proof fn lemma_distinct_in_order(ts: Seq<Seq<char>>)
    ensures
        distinct_in_order(ts).no_duplicates(),
        forall|t: Seq<char>| distinct_in_order(ts).contains(t) <==> ts.contains(t),
    decreases ts.len(),
{
    if ts.len() > 0 {
        let p = ts.drop_last();
        lemma_distinct_in_order(p);
        assert forall|t: Seq<char>| ts.contains(t) <==> p.contains(t) || t == ts.last() by {
            if ts.contains(t) {
                let i = choose|i: int| 0 <= i < ts.len() && ts[i] == t;
                if i < ts.len() - 1 {
                    assert(p[i] == t);
                }
            }
            if p.contains(t) {
                let i = choose|i: int| 0 <= i < p.len() && p[i] == t;
                assert(ts[i] == t);
            }
            if t == ts.last() {
                assert(ts[ts.len() - 1] == t);
            }
        }
        let d = distinct_in_order(p);
        if !d.contains(ts.last()) {
            assert forall|t: Seq<char>| d.push(ts.last()).contains(t) <==> d.contains(t) || t
                == ts.last() by {
                if d.push(ts.last()).contains(t) {
                    let i = choose|i: int| 0 <= i < d.len() + 1 && d.push(ts.last())[i] == t;
                    if i < d.len() {
                        assert(d[i] == t);
                    }
                }
                if d.contains(t) {
                    let i = choose|i: int| 0 <= i < d.len() && d[i] == t;
                    assert(d.push(ts.last())[i] == t);
                }
                if t == ts.last() {
                    assert(d.push(ts.last())[d.len() as int] == t);
                }
            }
        }
    }
}

proof fn lemma_unknown_in_subset(s: Seq<Seq<char>>, known: Seq<Seq<char>>)
    ensures
        forall|x: Seq<char>|
            unknown_in(s, known).contains(x) ==> s.contains(x) && !known.contains(x),
    decreases s.len(),
{
    if s.len() > 0 {
        let p = s.drop_last();
        lemma_unknown_in_subset(p, known);
        assert forall|x: Seq<char>| unknown_in(s, known).contains(x) implies s.contains(x)
            && !known.contains(x) by {
            let u = unknown_in(p, known);
            if u.contains(x) {
                assert(p.contains(x));
                let i = choose|i: int| 0 <= i < p.len() && p[i] == x;
                assert(s[i] == x);
            } else {
                let w = choose|w: int|
                    0 <= w < unknown_in(s, known).len() && unknown_in(s, known)[w] == x;
                assert(w == u.len());
                assert(s[s.len() - 1] == x);
            }
        }
    }
}

proof fn lemma_occurrences_prefix(ts: Seq<Seq<char>>, k: int, t: Seq<char>)
    requires
        0 <= k <= ts.len(),
    ensures
        occurrences(ts.take(k), t) <= occurrences(ts, t),
    decreases ts.len() - k,
{
    if k < ts.len() {
        lemma_occurrences_prefix(ts, k + 1, t);
        assert(ts.take(k + 1).drop_last() =~= ts.take(k));
    } else {
        assert(ts.take(k) =~= ts);
    }
}

proof fn lemma_occurrences_absent(ts: Seq<Seq<char>>, t: Seq<char>)
    requires
        !ts.contains(t),
    ensures
        occurrences(ts, t) == 0,
    decreases ts.len(),
{
    if ts.len() > 0 {
        assert(!ts.drop_last().contains(t)) by {
            if ts.drop_last().contains(t) {
                let i = choose|i: int| 0 <= i < ts.len() - 1 && ts.drop_last()[i] == t;
                assert(ts[i] == t);
            }
        }
        assert(ts[ts.len() - 1] != t);
        lemma_occurrences_absent(ts.drop_last(), t);
    }
}

/// A single indexed document.
#[derive(Debug)]
pub struct Document {
    pub id: u64,
    pub text: String,
}

/// The inverted index: token -> list of (doc_id, term_frequency).
pub struct InvertedIndex {
    /// `postings[i]` lists, for the token `all_tokens[i]`, the documents
    /// that contain it and how often.
    pub postings: Vec<Vec<(u64, u32)>>,
    /// Total number of documents indexed.
    pub doc_count: u64,
    /// All unique tokens in the index (used for fuzzy candidate matching).
    pub all_tokens: Vec<String>,
    /// doc_id -> original text (for returning results)
    pub documents: HashMap<u64, String>,
}

/// `n` is the index `o` after the document `(id, text)` was added: the
/// document is stored and counted, each of its tokens gains a posting
/// `(id, occurrences)`, and tokens the index did not know are appended to
/// `all_tokens`, in the order they first occur in the text.
pub open spec fn indexed(o: InvertedIndex, n: InvertedIndex, id: u64, text: String) -> bool {
    let ts = tokens_of(text@);
    let fresh = unknown_in(distinct_in_order(ts), o.token_views());
    let k = o.token_views().len();
    &&& n.wf()
    &&& n.doc_count == o.doc_count + 1
    &&& n.documents@ == o.documents@.insert(id, text)
    &&& n.token_views() == o.token_views() + fresh
    &&& forall|i: int|
        0 <= i < k ==> #[trigger] n.posting_lists()[i] == if ts.contains(o.token_views()[i]) {
            o.posting_lists()[i].push((id, occurrences(ts, o.token_views()[i]) as u32))
        } else {
            o.posting_lists()[i]
        }
    &&& forall|j: int|
        0 <= j < fresh.len() ==> #[trigger] n.posting_lists()[k + j] == seq![
            (id, occurrences(ts, fresh[j]) as u32),
        ]
}

/// No token occurs in `ts` more often than a `u32` counts.
pub open spec fn countable(ts: Seq<Seq<char>>) -> bool {
    forall|t: Seq<char>| occurrences(ts, t) <= u32::MAX
}

impl InvertedIndex {
    /// The tokens of the index, in the order they were first indexed.
    pub open spec fn token_views(&self) -> Seq<Seq<char>> {
        string_views(self.all_tokens@)
    }

    /// The posting lists, one per token, in the order of `token_views`.
    pub open spec fn posting_lists(&self) -> Seq<Seq<(u64, u32)>> {
        self.postings@.map_values(|v: Vec<(u64, u32)>| v@)
    }

    /// One posting list per token, and no token twice.
    pub open spec fn wf(&self) -> bool {
        &&& self.postings@.len() == self.all_tokens@.len()
        &&& self.token_views().no_duplicates()
    }

    pub fn new() -> (idx: Self)
        ensures
            idx.wf(),
            idx.doc_count == 0,
            idx.token_views().len() == 0,
            idx.posting_lists().len() == 0,
            idx.documents@ == Map::<u64, String>::empty(),
    {
        let idx = Self {
            postings: Vec::new(),
            doc_count: 0,
            all_tokens: Vec::new(),
            documents: HashMap::new(),
        };
        assert(idx.token_views() =~= Seq::<Seq<char>>::empty());
        idx
    }

    /// Add a document to the index.
    pub fn add(&mut self, doc: Document)
        requires
            old(self).wf(),
            old(self).doc_count < u64::MAX,
            countable(tokens_of(doc.text@)),
        ensures
            indexed(*old(self), *final(self), doc.id, doc.text),
    {
        broadcast use vstd::std_specs::hash::group_hash_axioms;

        let tokens = tokenize(doc.text.as_str());
        let ghost ts = tokens_of(doc.text@);
        let ghost tv = string_views(tokens@);
        assert(tv == ts);
        let doc_id = doc.id;
        self.documents.insert(doc.id, doc.text);
        self.doc_count = self.doc_count + 1;
        let ghost count_after = self.doc_count;
        let ghost docs_after = self.documents@;

        // Count term frequency per token in this document
        let mut counts: Vec<(String, u32)> = Vec::new();
        let mut k: usize = 0;
        assert(ts.take(0) =~= Seq::<Seq<char>>::empty());
        while k < tokens.len()
            invariant
                k <= tokens@.len(),
                tv == ts,
                tv == string_views(tokens@),
                self.doc_count == count_after,
                self.documents@ == docs_after,
                forall|t: Seq<char>| occurrences(ts, t) <= u32::MAX,
                string_views(counts@.map_values(|p: (String, u32)| p.0)) == distinct_in_order(
                    ts.take(k as int),
                ),
                forall|j: int|
                    0 <= j < counts@.len() ==> #[trigger] counts@[j].1 == occurrences(
                        ts.take(k as int),
                        counts@[j].0@,
                    ),
            decreases tokens.len() - k,
        {
            let ghost pre = ts.take(k as int);
            let ghost post = ts.take(k + 1);
            assert(post.drop_last() =~= pre);
            assert(post.last() == tokens@[k as int]@);
            let ghost keys = string_views(counts@.map_values(|p: (String, u32)| p.0));
            let mut j: usize = 0;
            let mut found = false;
            while j < counts.len() && !found
                invariant
                    j <= counts@.len(),
                    keys == string_views(counts@.map_values(|p: (String, u32)| p.0)),
                    found ==> j < counts@.len() && counts@[j as int].0@ == tokens@[k as int]@,
                    !found ==> forall|m: int| 0 <= m < j ==> #[trigger] keys[m] != tokens@[k as int]@,
                    k < tokens@.len(),
                decreases counts.len() - j + (if found { 0int } else { 1int }),
            {
                assert(keys[j as int] == counts@[j as int].0@);
                if counts[j].0 == tokens[k] {
                    found = true;
                } else {
                    j = j + 1;
                }
            }
            proof {
                lemma_occurrences_prefix(ts, k + 1, post.last());
            }
            if found {
                let ghost old_counts = counts@;
                assert(keys.contains(post.last())) by {
                    assert(keys[j as int] == post.last());
                }
                let c = counts[j].1;
                proof {
                    lemma_distinct_in_order(pre);
                }
                counts[j].1 = c + 1;
                assert(counts@ == old_counts.update(j as int, (old_counts[j as int].0, (c + 1) as u32)));
                assert(string_views(counts@.map_values(|p: (String, u32)| p.0)) =~= keys);
                assert forall|m: int| 0 <= m < counts@.len() implies #[trigger] counts@[m].1
                    == occurrences(post, counts@[m].0@) by {
                    if m != j {
                        assert(counts@[m] == old_counts[m]);
                        assert(keys[m] == old_counts[m].0@);
                        assert(keys[j as int] == post.last());
                        assert(keys[m] != post.last());
                    } else {
                        assert(counts@[m].0 == old_counts[m].0);
                        assert(old_counts[m].1 == occurrences(pre, post.last()));
                    }
                }
            } else {
                assert(!keys.contains(post.last()));
                proof {
                    lemma_distinct_in_order(pre);
                    lemma_occurrences_absent(pre, post.last());
                }
                let ghost old_counts = counts@;
                counts.push((tokens[k].clone(), 1));
                assert(string_views(counts@.map_values(|p: (String, u32)| p.0)) =~= keys.push(
                    post.last(),
                ));
                assert forall|m: int| 0 <= m < counts@.len() implies #[trigger] counts@[m].1
                    == occurrences(post, counts@[m].0@) by {
                    if m < old_counts.len() {
                        assert(counts@[m] == old_counts[m]);
                        assert(keys[m] == old_counts[m].0@);
                        assert(keys[m] != post.last());
                    }
                }
            }
            k = k + 1;
        }
        assert(ts.take(tokens@.len() as int) =~= ts);
        let ghost dist = distinct_in_order(ts);
        proof {
            lemma_distinct_in_order(ts);
        }

        // Record each distinct token's frequency in its posting list
        let ghost old_tv = string_views(self.all_tokens@);
        let ghost old_pl = self.postings@.map_values(|v: Vec<(u64, u32)>| v@);
        let n = self.all_tokens.len();
        let mut q: usize = 0;
        assert(dist.take(0) =~= Seq::<Seq<char>>::empty());
        assert(string_views(self.all_tokens@) =~= old_tv + unknown_in(dist.take(0), old_tv));
        while q < counts.len()
            invariant
                q <= counts@.len(),
                n == old_tv.len(),
                self.doc_count == count_after,
                self.documents@ == docs_after,
                dist == distinct_in_order(ts),
                dist.no_duplicates(),
                forall|t: Seq<char>| dist.contains(t) <==> ts.contains(t),
                string_views(counts@.map_values(|p: (String, u32)| p.0)) == dist,
                forall|j: int|
                    0 <= j < counts@.len() ==> #[trigger] counts@[j].1 == occurrences(
                        ts,
                        counts@[j].0@,
                    ),
                old_tv.no_duplicates(),
                self.postings@.len() == self.all_tokens@.len(),
                string_views(self.all_tokens@) == old_tv + unknown_in(dist.take(q as int), old_tv),
                string_views(self.all_tokens@).no_duplicates(),
                forall|i: int|
                    0 <= i < n ==> #[trigger] self.postings@[i]@ == if dist.take(q as int).contains(
                        old_tv[i],
                    ) {
                        old_pl[i].push((doc_id, occurrences(ts, old_tv[i]) as u32))
                    } else {
                        old_pl[i]
                    },
                forall|m: int|
                    0 <= m < unknown_in(dist.take(q as int), old_tv).len()
                        ==> #[trigger] self.postings@[n + m]@ == seq![
                        (
                            doc_id,
                            occurrences(ts, unknown_in(dist.take(q as int), old_tv)[m]) as u32,
                        ),
                    ],
            decreases counts.len() - q,
        {
            let ghost u = unknown_in(dist.take(q as int), old_tv);
            let ghost cur_tv = string_views(self.all_tokens@);
            let ghost cur_p = self.postings@;
            let ghost t = dist[q as int];
            assert(counts@[q as int].0@ == t) by {
                assert(string_views(counts@.map_values(|p: (String, u32)| p.0))[q as int]
                    == counts@[q as int].0@);
            }
            let c = counts[q].1;
            assert(dist.take(q + 1) =~= dist.take(q as int).push(t));
            assert(dist.take(q + 1).drop_last() =~= dist.take(q as int));
            proof {
                lemma_unknown_in_subset(dist.take(q as int), old_tv);
                assert(!dist.take(q as int).contains(t)) by {
                    if dist.take(q as int).contains(t) {
                        let w = choose|w: int| 0 <= w < q && dist.take(q as int)[w] == t;
                        assert(dist[w] == dist[q as int]);
                    }
                }
                assert(!u.contains(t));
            }
            let mut i: usize = 0;
            let mut found = false;
            while i < self.all_tokens.len() && !found
                invariant
                    i <= self.all_tokens@.len(),
                    cur_tv == string_views(self.all_tokens@),
                    found ==> i < self.all_tokens@.len() && cur_tv[i as int] == t,
                    !found ==> forall|m: int| 0 <= m < i ==> #[trigger] cur_tv[m] != t,
                    q < counts@.len(),
                    counts@[q as int].0@ == t,
                decreases self.all_tokens.len() - i + (if found { 0int } else { 1int }),
            {
                assert(cur_tv[i as int] == self.all_tokens@[i as int]@);
                if self.all_tokens[i] == counts[q].0 {
                    found = true;
                } else {
                    i = i + 1;
                }
            }
            if found {
                proof {
                    assert(cur_tv.len() == n + u.len());
                    if i >= n {
                        assert(cur_tv[i as int] == u[i - n]);
                        assert(u.contains(t));
                    }
                    assert(old_tv[i as int] == t);
                    assert(old_tv.contains(t));
                }
                self.postings[i].push((doc_id, c));
                assert(unknown_in(dist.take(q + 1), old_tv) == u);
                assert(string_views(self.all_tokens@) == cur_tv);
                assert forall|j: int| 0 <= j < n implies #[trigger] self.postings@[j]@ == if dist.take(
                    q + 1,
                ).contains(old_tv[j]) {
                    old_pl[j].push((doc_id, occurrences(ts, old_tv[j]) as u32))
                } else {
                    old_pl[j]
                } by {
                    assert(cur_tv[j] == old_tv[j]);
                    if j != i {
                        assert(self.postings@[j] == cur_p[j]);
                        assert(old_tv[j] != t) by {
                            assert(old_tv[i as int] == t);
                        }
                        assert(dist.take(q + 1).contains(old_tv[j]) == dist.take(q as int).contains(
                            old_tv[j],
                        ));
                    } else {
                        assert(dist.take(q + 1).contains(t)) by {
                            assert(dist.take(q + 1)[q as int] == t);
                        }
                    }
                }
                assert forall|m: int| 0 <= m < u.len() implies #[trigger] self.postings@[n + m]@
                    == seq![(doc_id, occurrences(ts, u[m]) as u32)] by {
                    assert(self.postings@[n + m] == cur_p[n + m]);
                }
            } else {
                proof {
                    assert(!cur_tv.contains(t));
                    assert(!old_tv.contains(t)) by {
                        if old_tv.contains(t) {
                            let w = choose|w: int| 0 <= w < old_tv.len() && old_tv[w] == t;
                            assert(cur_tv[w] == t);
                        }
                    }
                }
                self.all_tokens.push(counts[q].0.clone());
                let mut fresh_list: Vec<(u64, u32)> = Vec::new();
                fresh_list.push((doc_id, c));
                self.postings.push(fresh_list);
                assert(unknown_in(dist.take(q + 1), old_tv) == u.push(t));
                assert(string_views(self.all_tokens@) =~= cur_tv.push(t));
                assert(string_views(self.all_tokens@) =~= old_tv + u.push(t));
                assert forall|j: int| 0 <= j < n implies #[trigger] self.postings@[j]@ == if dist.take(
                    q + 1,
                ).contains(old_tv[j]) {
                    old_pl[j].push((doc_id, occurrences(ts, old_tv[j]) as u32))
                } else {
                    old_pl[j]
                } by {
                    assert(self.postings@[j] == cur_p[j]);
                    assert(cur_tv[j] == old_tv[j]);
                    assert(old_tv[j] != t);
                    assert(dist.take(q + 1).contains(old_tv[j]) == dist.take(q as int).contains(
                        old_tv[j],
                    ));
                }
                assert forall|m: int| 0 <= m < u.len() + 1 implies #[trigger] self.postings@[n
                    + m]@ == seq![(doc_id, occurrences(ts, u.push(t)[m]) as u32)] by {
                    if m < u.len() {
                        assert(self.postings@[n + m] == cur_p[n + m]);
                    } else {
                        assert(self.postings@[n + m]@ =~= seq![(doc_id, c)]);
                    }
                }
            }
            q = q + 1;
        }
        assert(dist.take(counts@.len() as int) =~= dist);
        assert(self.posting_lists().len() == self.postings@.len());
        assert forall|i: int| 0 <= i < n implies dist.contains(old_tv[i]) == ts.contains(
            old_tv[i],
        ) by {}
    }
}


proof fn lemma_occurrences_len(ts: Seq<Seq<char>>, t: Seq<char>)
    ensures
        occurrences(ts, t) <= ts.len(),
    decreases ts.len(),
{
    if ts.len() > 0 {
        lemma_occurrences_len(ts.drop_last(), t);
    }
}

/// Count the occurrences of `ts[k]` in `ts`.
fn count_occurrences(tokens: &Vec<String>, k: usize) -> (c: usize)
    requires
        k < tokens@.len(),
    ensures
        c == occurrences(string_views(tokens@), tokens@[k as int]@),
{
    let ghost ts = string_views(tokens@);
    let mut c: usize = 0;
    let mut i: usize = 0;
    assert(ts.take(0) =~= Seq::<Seq<char>>::empty());
    while i < tokens.len()
        invariant
            i <= tokens@.len(),
            k < tokens@.len(),
            ts == string_views(tokens@),
            c == occurrences(ts.take(i as int), tokens@[k as int]@),
            c <= i,
        decreases tokens.len() - i,
    {
        assert(ts.take(i + 1).drop_last() =~= ts.take(i as int));
        assert(ts.take(i + 1).last() == tokens@[i as int]@);
        if tokens[i] == tokens[k] {
            c = c + 1;
        }
        i = i + 1;
    }
    assert(ts.take(tokens@.len() as int) =~= ts);
    c
}

/// Whether no token occurs more often than a `u32` counts.
pub fn tokens_countable(tokens: &Vec<String>) -> (b: bool)
    ensures
        b == countable(string_views(tokens@)),
{
    let ghost ts = string_views(tokens@);
    if tokens.len() <= u32::MAX as usize {
        assert forall|t: Seq<char>| occurrences(ts, t) <= u32::MAX by {
            lemma_occurrences_len(ts, t);
        }
        return true;
    }
    let mut k: usize = 0;
    while k < tokens.len()
        invariant
            k <= tokens@.len(),
            ts == string_views(tokens@),
            forall|j: int| 0 <= j < k ==> occurrences(ts, #[trigger] ts[j]) <= u32::MAX,
        decreases tokens.len() - k,
    {
        let c = count_occurrences(tokens, k);
        if c > u32::MAX as usize {
            assert(!countable(ts)) by {
                assert(occurrences(ts, ts[k as int]) > u32::MAX);
            }
            return false;
        }
        k = k + 1;
    }
    assert forall|t: Seq<char>| occurrences(ts, t) <= u32::MAX by {
        if ts.contains(t) {
            let j = choose|j: int| 0 <= j < ts.len() && ts[j] == t;
            assert(occurrences(ts, ts[j]) <= u32::MAX);
        } else {
            lemma_occurrences_absent(ts, t);
        }
    }
    true
}

/// The posting list of the token `t`, if the index holds it.
pub open spec fn postings_of(tokens: Seq<Seq<char>>, lists: Seq<Seq<(u64, u32)>>, t: Seq<char>) -> Option<Seq<(u64, u32)>>
    decreases tokens.len(),
{
    if tokens.len() == 0 {
        None
    } else if tokens[0] == t {
        Some(lists[0])
    } else {
        postings_of(tokens.drop_first(), lists.drop_first(), t)
    }
}

/// The posting lists of the query tokens that the index holds, in the
/// order of the query (a repeated token counts again).
pub open spec fn query_lists(tokens: Seq<Seq<char>>, lists: Seq<Seq<(u64, u32)>>, qs: Seq<Seq<char>>) -> Seq<Seq<(u64, u32)>>
    decreases qs.len(),
{
    if qs.len() == 0 {
        Seq::empty()
    } else {
        let r = query_lists(tokens, lists, qs.drop_last());
        match postings_of(tokens, lists, qs.last()) {
            Some(l) => r.push(l),
            None => r,
        }
    }
}

/// The posting lists as sequences.
pub open spec fn posting_views(v: Seq<Vec<(u64, u32)>>) -> Seq<Seq<(u64, u32)>> {
    v.map_values(|l: Vec<(u64, u32)>| l@)
}

/// A copy of a posting list.
fn copy_postings(l: &Vec<(u64, u32)>) -> (c: Vec<(u64, u32)>)
    ensures
        c@ == l@,
{
    let mut c: Vec<(u64, u32)> = Vec::new();
    let mut i: usize = 0;
    while i < l.len()
        invariant
            i <= l@.len(),
            c@ == l@.take(i as int),
        decreases l.len() - i,
    {
        c.push(l[i]);
        assert(l@.take(i + 1) =~= l@.take(i as int).push(l@[i as int]));
        i = i + 1;
    }
    assert(l@.take(l@.len() as int) =~= l@);
    c
}

impl InvertedIndex {
    /// The posting list of one token, if the index holds it.
    fn postings_for(&self, t: &String) -> (res: Option<Vec<(u64, u32)>>)
        requires
            self.postings@.len() == self.all_tokens@.len(),
        ensures
            match res {
                Some(l) => postings_of(self.token_views(), self.posting_lists(), t@) == Some(l@),
                None => postings_of(self.token_views(), self.posting_lists(), t@) is None,
            },
    {
        let ghost tv = self.token_views();
        let ghost pl = self.posting_lists();
        let mut i: usize = 0;
        assert(tv.skip(0) =~= tv);
        assert(pl.skip(0) =~= pl);
        while i < self.all_tokens.len()
            invariant
                i <= tv.len(),
                self.postings@.len() == self.all_tokens@.len(),
                tv == self.token_views(),
                pl == self.posting_lists(),
                tv.len() == pl.len(),
                postings_of(tv, pl, t@) == postings_of(tv.skip(i as int), pl.skip(i as int), t@),
            decreases self.all_tokens.len() - i,
        {
            assert(tv.skip(i as int)[0] == self.all_tokens@[i as int]@);
            assert(tv.skip(i as int).drop_first() =~= tv.skip(i + 1));
            assert(pl.skip(i as int).drop_first() =~= pl.skip(i + 1));
            if self.all_tokens[i] == *t {
                assert(pl.skip(i as int)[0] == self.postings@[i as int]@);
                return Some(copy_postings(&self.postings[i]));
            }
            i = i + 1;
        }
        None
    }

    /// The posting lists of the tokens of `query` that the index holds, in
    /// the query's order: what ranked search scores.
    pub fn query_postings(&self, query: &str) -> (res: Vec<Vec<(u64, u32)>>)
        requires
            self.postings@.len() == self.all_tokens@.len(),
        ensures
            posting_views(res@) == query_lists(self.token_views(), self.posting_lists(), tokens_of(query@)),
    {
        let qs = tokenize(query);
        let ghost qv = string_views(qs@);
        let mut res: Vec<Vec<(u64, u32)>> = Vec::new();
        let mut i: usize = 0;
        assert(qv.take(0) =~= Seq::<Seq<char>>::empty());
        assert(posting_views(res@) =~= Seq::<Seq<(u64, u32)>>::empty());
        while i < qs.len()
            invariant
                i <= qs@.len(),
                self.postings@.len() == self.all_tokens@.len(),
                qv == string_views(qs@),
                qv == tokens_of(query@),
                posting_views(res@) == query_lists(self.token_views(), self.posting_lists(), qv.take(i as int)),
            decreases qs.len() - i,
        {
            assert(qv.take(i + 1).drop_last() =~= qv.take(i as int));
            assert(qv.take(i + 1).last() == qs@[i as int]@);
            match self.postings_for(&qs[i]) {
                Some(l) => {
                    let ghost before = posting_views(res@);
                    let ghost lv = l@;
                    res.push(l);
                    assert(posting_views(res@) =~= before.push(lv));
                },
                None => {},
            }
            i = i + 1;
        }
        assert(qv.take(qs@.len() as int) =~= qv);
        res
    }
}

proof fn lemma_unknown_in_complete(s: Seq<Seq<char>>, known: Seq<Seq<char>>, x: Seq<char>)
    requires
        s.contains(x),
        !known.contains(x),
    ensures
        unknown_in(s, known).contains(x),
    decreases s.len(),
{
    let p = s.drop_last();
    let u = unknown_in(p, known);
    if s.last() == x {
        assert(unknown_in(s, known)[u.len() as int] == x);
    } else {
        let i = choose|i: int| 0 <= i < s.len() && s[i] == x;
        assert(i < s.len() - 1);
        assert(p[i] == x);
        lemma_unknown_in_complete(p, known, x);
        let j = choose|j: int| 0 <= j < u.len() && u[j] == x;
        assert(unknown_in(s, known)[j] == x);
    }
}

/// Adding a document only appends to the token list, which afterwards holds
/// each token once: the tokens it held and the document's tokens.
pub proof fn law_add_tokens(o: InvertedIndex, n: InvertedIndex, id: u64, text: String, t: Seq<char>)
    requires
        indexed(o, n, id, text),
    ensures
        o.token_views().len() <= n.token_views().len(),
        n.token_views().take(o.token_views().len() as int) == o.token_views(),
        n.token_views().no_duplicates(),
        n.token_views().contains(t) <==> o.token_views().contains(t) || tokens_of(text@).contains(t),
{
    let ts = tokens_of(text@);
    let ov = o.token_views();
    let fresh = unknown_in(distinct_in_order(ts), ov);
    assert(n.token_views() == ov + fresh);
    assert((ov + fresh).take(ov.len() as int) =~= ov);
    lemma_distinct_in_order(ts);
    lemma_unknown_in_subset(distinct_in_order(ts), ov);
    if (ov + fresh).contains(t) {
        let i = choose|i: int| 0 <= i < (ov + fresh).len() && (ov + fresh)[i] == t;
        if i < ov.len() {
            assert(ov[i] == t);
        } else {
            assert(fresh[i - ov.len()] == t);
        }
    }
    if ov.contains(t) {
        let i = choose|i: int| 0 <= i < ov.len() && ov[i] == t;
        assert((ov + fresh)[i] == t);
    } else if ts.contains(t) {
        lemma_unknown_in_complete(distinct_in_order(ts), ov, t);
        let j = choose|j: int| 0 <= j < fresh.len() && fresh[j] == t;
        assert((ov + fresh)[ov.len() + j] == t);
    }
}

/// `states` is an index through the additions of `docs`, one by one.
pub open spec fn indexed_run(states: Seq<InvertedIndex>, docs: Seq<(u64, String)>) -> bool {
    &&& states.len() == docs.len() + 1
    &&& forall|i: int| 0 <= i < docs.len() ==> indexed(states[i], states[i + 1], #[trigger] docs[i].0, docs[i].1)
}

proof fn lemma_run_tokens(states: Seq<InvertedIndex>, docs: Seq<(u64, String)>, i: int, t: Seq<char>)
    requires
        indexed_run(states, docs),
        states[0].token_views().len() == 0,
        0 <= i <= docs.len(),
    ensures
        i > 0 ==> states[i].token_views().no_duplicates(),
        states[i].token_views().contains(t) <==> exists|j: int|
            0 <= j < i && #[trigger] tokens_of(docs[j].1@).contains(t),
    decreases i,
{
    if i > 0 {
        lemma_run_tokens(states, docs, i - 1, t);
        assert(indexed(states[i - 1], states[i], docs[i - 1].0, docs[i - 1].1));
        law_add_tokens(states[i - 1], states[i], docs[i - 1].0, docs[i - 1].1, t);
        if states[i].token_views().contains(t) && !tokens_of(docs[i - 1].1@).contains(t) {
            let j = choose|j: int| 0 <= j < i - 1 && #[trigger] tokens_of(docs[j].1@).contains(t);
        }
    } else {
        assert(!states[0].token_views().contains(t));
    }
}

/// The tokens of an index built by adding documents to an empty index are
/// the tokens of those documents, each once.
pub proof fn law_tokens_of_documents(states: Seq<InvertedIndex>, docs: Seq<(u64, String)>, t: Seq<char>)
    requires
        indexed_run(states, docs),
        states[0].token_views().len() == 0,
    ensures
        states.last().token_views().no_duplicates(),
        states.last().token_views().contains(t) <==> exists|j: int|
            0 <= j < docs.len() && #[trigger] tokens_of(docs[j].1@).contains(t),
{
    lemma_run_tokens(states, docs, docs.len() as int, t);
    if docs.len() == 0 {
        assert(states.last().token_views() =~= Seq::<Seq<char>>::empty());
    }
}

/// Words joined with single spaces between them, as `join(" ")` joins them.
pub open spec fn join_words(ws: Seq<Seq<char>>) -> Seq<char>
    decreases ws.len(),
{
    if ws.len() == 0 {
        Seq::empty()
    } else if ws.len() == 1 {
        ws[0]
    } else {
        join_words(ws.drop_last()) + seq![' '] + ws.last()
    }
}

/// Every character of `w` is alphanumeric and left as it is by lowercasing.
pub open spec fn word_chars(w: Seq<char>) -> bool {
    forall|j: int| 0 <= j < w.len() ==> lower_ascii_char(#[trigger] w[j]) && alphanumeric(w[j])
}

proof fn lemma_split_pieces_words(s: Seq<char>)
    requires
        forall|i: int| 0 <= i < s.len() ==> lower_ascii_char(#[trigger] s[i]),
    ensures
        split_pieces(s).len() >= 1,
        forall|k: int| 0 <= k < split_pieces(s).len() ==> word_chars(#[trigger] split_pieces(s)[k]),
    decreases s.len(),
{
    if s.len() > 0 {
        let r = s.drop_last();
        assert forall|i: int| 0 <= i < r.len() implies lower_ascii_char(#[trigger] r[i]) by {
            assert(r[i] == s[i]);
        }
        lemma_split_pieces_words(r);
        let p = split_pieces(r);
        let q = split_pieces(s);
        if alphanumeric(s.last()) {
            assert forall|k: int| 0 <= k < q.len() implies word_chars(#[trigger] q[k]) by {
                if k == q.len() - 1 {
                    let w = p.last().push(s.last());
                    assert(q[k] == w);
                    assert forall|j: int| 0 <= j < w.len() implies lower_ascii_char(#[trigger] w[j]) && alphanumeric(w[j]) by {
                        if j < w.len() - 1 {
                            assert(w[j] == p[p.len() - 1][j]);
                            assert(word_chars(p[p.len() - 1]));
                        }
                    }
                } else {
                    assert(q[k] == p[k]);
                }
            }
        } else {
            assert forall|k: int| 0 <= k < q.len() implies word_chars(#[trigger] q[k]) by {
                if k < q.len() - 1 {
                    assert(q[k] == p[k]);
                }
            }
        }
    }
}

proof fn lemma_keep_tokens_words(ps: Seq<Seq<char>>)
    requires
        forall|k: int| 0 <= k < ps.len() ==> word_chars(#[trigger] ps[k]),
    ensures
        forall|k: int| 0 <= k < keep_tokens(ps).len() ==> word_chars(#[trigger] keep_tokens(ps)[k])
            && is_token(keep_tokens(ps)[k]),
    decreases ps.len(),
{
    if ps.len() > 0 {
        let r = ps.drop_last();
        assert forall|k: int| 0 <= k < r.len() implies word_chars(#[trigger] r[k]) by {
            assert(r[k] == ps[k]);
        }
        lemma_keep_tokens_words(r);
        assert(word_chars(ps[ps.len() - 1]));
        let kr = keep_tokens(r);
        let kt = keep_tokens(ps);
        assert forall|k: int| 0 <= k < kt.len() implies word_chars(#[trigger] kt[k]) && is_token(kt[k]) by {
            if k < kr.len() {
                assert(kt[k] == kr[k]);
            } else {
                assert(kt[k] == ps.last());
            }
        }
    }
}

proof fn lemma_keep_all_tokens(ts: Seq<Seq<char>>)
    requires
        forall|k: int| 0 <= k < ts.len() ==> is_token(#[trigger] ts[k]),
    ensures
        keep_tokens(ts) == ts,
    decreases ts.len(),
{
    if ts.len() > 0 {
        let r = ts.drop_last();
        assert forall|k: int| 0 <= k < r.len() implies is_token(#[trigger] r[k]) by {
            assert(r[k] == ts[k]);
        }
        lemma_keep_all_tokens(r);
        assert(is_token(ts[ts.len() - 1]));
        assert(r.push(ts.last()) =~= ts);
    }
}

/// Appending characters that are all alphanumeric extends the last piece.
proof fn lemma_split_pieces_extend(s: Seq<char>, w: Seq<char>)
    requires
        forall|j: int| 0 <= j < w.len() ==> alphanumeric(#[trigger] w[j]),
    ensures
        split_pieces(s).len() >= 1,
        split_pieces(s + w) == split_pieces(s).update(
            split_pieces(s).len() - 1,
            split_pieces(s).last() + w,
        ),
    decreases w.len(),
{
    lemma_split_pieces_words_len(s);
    if w.len() == 0 {
        assert(s + w =~= s);
        assert(split_pieces(s).last() + w =~= split_pieces(s).last());
        assert(split_pieces(s).update(split_pieces(s).len() - 1, split_pieces(s).last()) =~= split_pieces(s));
    } else {
        let w0 = w.drop_last();
        assert forall|j: int| 0 <= j < w0.len() implies alphanumeric(#[trigger] w0[j]) by {
            assert(w0[j] == w[j]);
        }
        lemma_split_pieces_extend(s, w0);
        assert((s + w).drop_last() =~= s + w0);
        assert((s + w).last() == w.last());
        assert(alphanumeric(w[w.len() - 1]));
        let p = split_pieces(s);
        assert(p.last() + w =~= (p.last() + w0).push(w.last()));
        assert(split_pieces(s + w) =~= p.update(p.len() - 1, p.last() + w));
    }
}

proof fn lemma_split_pieces_words_len(s: Seq<char>)
    ensures
        split_pieces(s).len() >= 1,
    decreases s.len(),
{
    if s.len() > 0 {
        lemma_split_pieces_words_len(s.drop_last());
    }
}

/// Splitting words joined with spaces gives the words back.
proof fn lemma_split_joined(ts: Seq<Seq<char>>)
    requires
        ts.len() >= 1,
        forall|k: int| 0 <= k < ts.len() ==> word_chars(#[trigger] ts[k]),
    ensures
        split_pieces(join_words(ts)) == ts,
    decreases ts.len(),
{
    let t = ts.last();
    assert(word_chars(ts[ts.len() - 1]));
    assert forall|j: int| 0 <= j < t.len() implies alphanumeric(#[trigger] t[j]) by {}
    if ts.len() == 1 {
        let e = Seq::<char>::empty();
        lemma_split_pieces_extend(e, t);
        assert(e + t =~= t);
        assert(split_pieces(e) =~= seq![e]);
        assert(split_pieces(t) =~= ts);
    } else {
        let r = ts.drop_last();
        assert forall|k: int| 0 <= k < r.len() implies word_chars(#[trigger] r[k]) by {
            assert(r[k] == ts[k]);
        }
        lemma_split_joined(r);
        let jr = join_words(r);
        let js = jr.push(' ');
        assert(js.drop_last() =~= jr);
        assert(!alphanumeric(' '));
        assert(split_pieces(js) == r.push(Seq::<char>::empty()));
        lemma_split_pieces_extend(js, t);
        assert(join_words(ts) =~= js + t);
        assert(Seq::<char>::empty() + t =~= t);
        assert(split_pieces(js + t) =~= ts);
    }
}

/// The words joined with spaces are ASCII and left as they are by lowercasing.
proof fn lemma_joined_lower(ts: Seq<Seq<char>>)
    requires
        forall|k: int| 0 <= k < ts.len() ==> word_chars(#[trigger] ts[k]),
    ensures
        forall|i: int| 0 <= i < join_words(ts).len() ==> lower_ascii_char(#[trigger] join_words(ts)[i]),
    decreases ts.len(),
{
    if ts.len() == 1 {
        assert(word_chars(ts[0]));
    } else if ts.len() > 1 {
        let r = ts.drop_last();
        assert forall|k: int| 0 <= k < r.len() implies word_chars(#[trigger] r[k]) by {
            assert(r[k] == ts[k]);
        }
        lemma_joined_lower(r);
        let jr = join_words(r);
        let t = ts.last();
        assert(word_chars(ts[ts.len() - 1]));
        let j = join_words(ts);
        assert(j =~= jr + seq![' '] + t);
        assert forall|i: int| 0 <= i < j.len() implies lower_ascii_char(#[trigger] j[i]) by {
            if i < jr.len() {
                assert(j[i] == jr[i]);
            } else if i == jr.len() {
                assert(j[i] == ' ');
            } else {
                assert(j[i] == t[i - jr.len() - 1]);
            }
        }
    }
}

/// Tokenizing the tokens of an ASCII text, joined with spaces, gives the
/// same tokens.
pub proof fn law_tokenize_again(text: Seq<char>)
    requires
        is_ascii_text(text),
    ensures
        tokens_of(join_words(tokens_of(text))) == tokens_of(text),
{
    lemma_ascii_lowercase(text);
    let l = lowercase(text);
    lemma_split_pieces_words(l);
    lemma_keep_tokens_words(split_pieces(l));
    let ts = tokens_of(text);
    let j = join_words(ts);
    lemma_joined_lower(ts);
    assert(is_ascii_text(j));
    assert(lowercase(j) =~= j);
    if ts.len() == 0 {
        assert(j =~= Seq::<char>::empty());
        assert(split_pieces(j) =~= seq![Seq::<char>::empty()]);
        assert(utf8_len(Seq::<char>::empty()) == 0) by {
            assert(vstd::utf8::encode_utf8(Seq::<char>::empty()) =~= Seq::<u8>::empty());
        }
        assert(keep_tokens(seq![Seq::<char>::empty()]) == keep_tokens(Seq::<Seq<char>>::empty())) by {
            assert(seq![Seq::<char>::empty()].drop_last() =~= Seq::<Seq<char>>::empty());
        }
    } else {
        lemma_split_joined(ts);
        lemma_keep_all_tokens(ts);
    }
}

/// A token that the index holds has the posting list at its place, and a
/// token that it does not hold has none.
pub proof fn law_postings_of(tokens: Seq<Seq<char>>, lists: Seq<Seq<(u64, u32)>>, t: Seq<char>, j: int)
    requires
        tokens.no_duplicates(),
        tokens.len() == lists.len(),
    ensures
        0 <= j < tokens.len() ==> postings_of(tokens, lists, tokens[j]) == Some(lists[j]),
        !tokens.contains(t) ==> postings_of(tokens, lists, t) is None,
    decreases tokens.len(),
{
    if tokens.len() > 0 {
        let rt = tokens.drop_first();
        let rl = lists.drop_first();
        assert(rt.no_duplicates()) by {
            assert forall|x: int, y: int| 0 <= x < rt.len() && 0 <= y < rt.len() && x != y implies rt[x] != rt[y] by {
                assert(rt[x] == tokens[x + 1] && rt[y] == tokens[y + 1]);
            }
        }
        if 0 < j < tokens.len() {
            assert(tokens[j] != tokens[0]);
            assert(rt[j - 1] == tokens[j]);
            assert(rl[j - 1] == lists[j]);
            law_postings_of(rt, rl, t, j - 1);
        }
        if !tokens.contains(t) {
            assert(tokens[0] != t);
            assert(!rt.contains(t)) by {
                if rt.contains(t) {
                    let x = choose|x: int| 0 <= x < rt.len() && rt[x] == t;
                    assert(tokens[x + 1] == t);
                }
            }
            law_postings_of(rt, rl, t, -1);
        }
    }
}

proof fn lemma_query_lists_concat(tokens: Seq<Seq<char>>, lists: Seq<Seq<(u64, u32)>>, a: Seq<Seq<char>>, b: Seq<Seq<char>>)
    ensures
        query_lists(tokens, lists, a + b) == query_lists(tokens, lists, a) + query_lists(tokens, lists, b),
    decreases b.len(),
{
    if b.len() == 0 {
        assert(a + b =~= a);
        assert(query_lists(tokens, lists, a) + query_lists(tokens, lists, b) =~= query_lists(tokens, lists, a));
    } else {
        lemma_query_lists_concat(tokens, lists, a, b.drop_last());
        assert((a + b).drop_last() =~= a + b.drop_last());
        assert((a + b).last() == b.last());
        let ra = query_lists(tokens, lists, a);
        let rb = query_lists(tokens, lists, b.drop_last());
        match postings_of(tokens, lists, b.last()) {
            Some(l) => {
                assert((ra + rb).push(l) =~= ra + rb.push(l));
            },
            None => {},
        }
    }
}

/// The posting lists that a query gathers: each query token contributes on
/// its own, whatever tokens come before or after it. A token that the index
/// holds (at place `j`) contributes its posting list, and one that the index
/// does not hold contributes nothing.
pub proof fn law_query_lists(
    tokens: Seq<Seq<char>>,
    lists: Seq<Seq<(u64, u32)>>,
    a: Seq<Seq<char>>,
    b: Seq<Seq<char>>,
    t: Seq<char>,
    j: int,
)
    requires
        tokens.no_duplicates(),
        tokens.len() == lists.len(),
    ensures
        query_lists(tokens, lists, a + b) == query_lists(tokens, lists, a) + query_lists(tokens, lists, b),
        0 <= j < tokens.len() ==> query_lists(tokens, lists, seq![tokens[j]]) == seq![lists[j]],
        !tokens.contains(t) ==> query_lists(tokens, lists, seq![t]).len() == 0,
        0 <= j < tokens.len() ==> query_lists(tokens, lists, a + seq![tokens[j]] + b) == query_lists(tokens, lists, a)
            + seq![lists[j]] + query_lists(tokens, lists, b),
        !tokens.contains(t) ==> query_lists(tokens, lists, a + seq![t] + b) == query_lists(tokens, lists, a + b),
{
    lemma_query_lists_concat(tokens, lists, a, b);
    law_postings_of(tokens, lists, t, j);
    let e = Seq::<Seq<char>>::empty();
    assert(query_lists(tokens, lists, e) =~= Seq::<Seq<(u64, u32)>>::empty());
    if 0 <= j < tokens.len() {
        let q = seq![tokens[j]];
        assert(q.drop_last() =~= e);
        assert(q.last() == tokens[j]);
        assert(query_lists(tokens, lists, q) =~= seq![lists[j]]);
        lemma_query_lists_concat(tokens, lists, a, q);
        lemma_query_lists_concat(tokens, lists, a + q, b);
    }
    let q = seq![t];
    assert(q.drop_last() =~= e);
    assert(q.last() == t);
    lemma_query_lists_concat(tokens, lists, a, q);
    lemma_query_lists_concat(tokens, lists, a + q, b);
    if !tokens.contains(t) {
        assert(query_lists(tokens, lists, q) =~= Seq::<Seq<(u64, u32)>>::empty());
        assert(query_lists(tokens, lists, a) + query_lists(tokens, lists, q) =~= query_lists(tokens, lists, a));
    }
}

} // verus!
