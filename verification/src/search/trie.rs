//! Prefix trie over the bytes of lowercased words, for autocomplete.

use vstd::prelude::*;
use crate::text::{ascii_uppercase, is_ascii_text, lemma_ascii_lowercase, lemma_utf8_prefix, lowercase, string_from_utf8, string_views, to_lowercase};
use vstd::utf8::{decode_utf8, encode_utf8, valid_utf8};

verus! {

/// A trie node: one child per next byte, and whether a word ends here.
#[derive(Debug)]
pub struct TrieNode {
    pub children: Vec<(u8, TrieNode)>,
    pub is_terminal: bool,
}

/// Index of the first child that the byte `b` leads to.
pub open spec fn child_index(cs: Seq<(u8, TrieNode)>, b: u8) -> Option<int>
    decreases cs.len(),
{
    if cs.len() == 0 {
        None
    } else if cs[0].0 == b {
        Some(0)
    } else {
        match child_index(cs.drop_first(), b) {
            Some(i) => Some(i + 1),
            None => None,
        }
    }
}

pub proof fn lemma_child_index(cs: Seq<(u8, TrieNode)>, b: u8)
    ensures
        match child_index(cs, b) {
            Some(i) => 0 <= i < cs.len() && cs[i].0 == b && forall|j: int|
                0 <= j < i ==> #[trigger] cs[j].0 != b,
            None => forall|j: int| 0 <= j < cs.len() ==> #[trigger] cs[j].0 != b,
        },
    decreases cs.len(),
{
    if cs.len() > 0 && cs[0].0 != b {
        let rest = cs.drop_first();
        lemma_child_index(rest, b);
        assert forall|j: int| 1 <= j < cs.len() implies cs[j] == #[trigger] rest[j - 1] by {}
        match child_index(rest, b) {
            Some(i) => {
                assert forall|j: int| 0 <= j < i + 1 implies #[trigger] cs[j].0 != b by {
                    if j > 0 {
                        assert(cs[j] == rest[j - 1]);
                    }
                }
            },
            None => {
                assert forall|j: int| 0 <= j < cs.len() implies #[trigger] cs[j].0 != b by {
                    if j > 0 {
                        assert(cs[j] == rest[j - 1]);
                    }
                }
            },
        }
    }
}

/// Prefix every word with the byte `b`.
pub open spec fn prepend(b: u8, ws: Seq<Seq<u8>>) -> Seq<Seq<u8>> {
    ws.map_values(|w: Seq<u8>| seq![b] + w)
}

/// The words below the first `k` children of `n`, child by child.
pub open spec fn children_words(n: TrieNode, k: int) -> Seq<Seq<u8>>
    decreases n, k,
{
    if k <= 0 || k > n.children@.len() {
        Seq::empty()
    } else {
        children_words(n, k - 1) + prepend(
            n.children@[k - 1].0,
            node_words(n.children@[k - 1].1),
        )
    }
}

/// The words stored below `n`, in pre-order: the empty word first when `n`
/// is terminal, then the words of each child in turn.
pub open spec fn node_words(n: TrieNode) -> Seq<Seq<u8>>
    decreases n, n.children@.len() + 1,
{
    (if n.is_terminal {
        seq![Seq::<u8>::empty()]
    } else {
        Seq::empty()
    }) + children_words(n, n.children@.len() as int)
}

/// The node that the bytes `p` lead to from `n`, if any.
pub open spec fn walk(n: TrieNode, p: Seq<u8>) -> Option<TrieNode>
    decreases p.len(),
{
    if p.len() == 0 {
        Some(n)
    } else {
        match child_index(n.children@, p[0]) {
            Some(i) => walk(n.children@[i].1, p.drop_first()),
            None => None,
        }
    }
}

/// Whether the word `w` ends at a terminal node below `n`.
pub open spec fn has_word(n: TrieNode, w: Seq<u8>) -> bool {
    match walk(n, w) {
        Some(m) => m.is_terminal,
        None => false,
    }
}

/// `n` is a bare path spelling `w`: one child per level, terminal at the end.
pub open spec fn chain(n: TrieNode, w: Seq<u8>) -> bool
    decreases w.len(),
{
    if w.len() == 0 {
        n.is_terminal && n.children@.len() == 0
    } else {
        &&& !n.is_terminal
        &&& n.children@.len() == 1
        &&& n.children@[0].0 == w[0]
        &&& chain(n.children@[0].1, w.drop_first())
    }
}

/// `n` is `o` with the word `w` inserted: the path for `w` is followed as far
/// as it exists, a missing child is appended after its siblings, and the
/// node at the end of `w` becomes terminal.
pub open spec fn inserted(o: TrieNode, n: TrieNode, w: Seq<u8>) -> bool
    decreases w.len(),
{
    if w.len() == 0 {
        n.is_terminal && n.children@ == o.children@
    } else {
        &&& n.is_terminal == o.is_terminal
        &&& match child_index(o.children@, w[0]) {
            Some(i) => {
                &&& n.children@.len() == o.children@.len()
                &&& forall|j: int| 0 <= j < o.children@.len() && j != i ==> #[trigger] n.children@[j] == o.children@[j]
                &&& n.children@[i].0 == w[0]
                &&& inserted(o.children@[i].1, n.children@[i].1, w.drop_first())
            },
            None => {
                &&& n.children@.len() == o.children@.len() + 1
                &&& forall|j: int| 0 <= j < o.children@.len() ==> #[trigger] n.children@[j] == o.children@[j]
                &&& n.children@.last().0 == w[0]
                &&& chain(n.children@.last().1, w.drop_first())
            },
        }
    }
}

proof fn lemma_inserted_into_empty(o: TrieNode, n: TrieNode, w: Seq<u8>)
    requires
        !o.is_terminal,
        o.children@.len() == 0,
        inserted(o, n, w),
    ensures
        chain(n, w),
{
    if w.len() > 0 {
        assert(child_index(o.children@, w[0]) is None);
        assert(n.children@.last() == n.children@[0]);
    }
}

impl TrieNode {
    pub fn new() -> (n: Self)
        ensures
            !n.is_terminal,
            n.children@.len() == 0,
    {
        Self { children: Vec::new(), is_terminal: false }
    }

    fn find_child(&self, byte: u8) -> (res: Option<usize>)
        ensures
            match child_index(self.children@, byte) {
                Some(i) => res is Some && res.unwrap() as int == i,
                None => res is None,
            },
    {
        proof {
            lemma_child_index(self.children@, byte);
        }
        let mut i: usize = 0;
        while i < self.children.len()
            invariant
                i <= self.children@.len(),
                forall|j: int| 0 <= j < i ==> #[trigger] self.children@[j].0 != byte,
                match child_index(self.children@, byte) {
                    Some(k) => 0 <= k < self.children@.len() && self.children@[k].0 == byte
                        && forall|j: int| 0 <= j < k ==> #[trigger] self.children@[j].0 != byte,
                    None => forall|j: int|
                        0 <= j < self.children@.len() ==> #[trigger] self.children@[j].0 != byte,
                },
            decreases self.children.len() - i,
        {
            if self.children[i].0 == byte {
                return Some(i);
            }
            i = i + 1;
        }
        None
    }

    fn find_or_create_child(&mut self, byte: u8) -> (idx: usize)
        ensures
            final(self).is_terminal == old(self).is_terminal,
            match child_index(old(self).children@, byte) {
                Some(i) => idx == i && final(self).children@ == old(self).children@,
                None => {
                    &&& idx == old(self).children@.len()
                    &&& final(self).children@.len() == old(self).children@.len() + 1
                    &&& forall|j: int| 0 <= j < old(self).children@.len() ==> #[trigger] final(self).children@[j] == old(self).children@[j]
                    &&& final(self).children@[idx as int].0 == byte
                    &&& !final(self).children@[idx as int].1.is_terminal
                    &&& final(self).children@[idx as int].1.children@.len() == 0
                },
            },
    {
        proof {
            lemma_child_index(self.children@, byte);
        }
        let found = self.find_child(byte);
        if let Some(idx) = found {
            assert(child_index(self.children@, byte) == Some(idx as int));
            idx
        } else {
            assert(child_index(self.children@, byte) is None);
            let fresh = TrieNode::new();
            self.children.push((byte, fresh));
            assert(self.children@[self.children@.len() - 1] == (byte, fresh));
            self.children.len() - 1
        }
    }

    fn insert_bytes(&mut self, word: &[u8], i: usize)
        requires
            i <= word@.len(),
        ensures
            inserted(*old(self), *final(self), word@.skip(i as int)),
        decreases word@.len() - i,
    {
        let ghost rest = word@.skip(i as int);
        if i == word.len() {
            self.is_terminal = true;
            return;
        }
        let byte = word[i];
        let ghost before = *self;
        proof {
            lemma_child_index(self.children@, byte);
        }
        let idx = self.find_or_create_child(byte);
        let ghost mid = *self;
        assert(rest.drop_first() =~= word@.skip(i + 1));
        self.children[idx].1.insert_bytes(word, i + 1);
        proof {
            match child_index(before.children@, byte) {
                Some(k) => {
                    lemma_child_index(before.children@, byte);
                }
                None => {
                    lemma_inserted_into_empty(
                        mid.children@[idx as int].1,
                        self.children@[idx as int].1,
                        rest.drop_first(),
                    );
                    assert(self.children@.last() == self.children@[idx as int]);
                }
            }
        }
    }
}

/// The suggestion for each word below a node reached by the bytes `path`:
/// the path followed by the word, decoded from UTF-8.
pub open spec fn suggestions(path: Seq<u8>, ws: Seq<Seq<u8>>) -> Seq<Seq<char>> {
    ws.map_values(|w: Seq<u8>| decode_utf8(path + w))
}

/// The first `limit` elements of `s`, or all of them when there are fewer.
pub open spec fn take_upto<A>(s: Seq<A>, limit: nat) -> Seq<A> {
    if s.len() <= limit {
        s
    } else {
        s.take(limit as int)
    }
}

proof fn lemma_take_upto_append<A>(a: Seq<A>, b: Seq<A>, limit: nat)
    ensures
        take_upto(take_upto(a, limit) + b, limit) =~= take_upto(a + b, limit),
{
}

proof fn lemma_suggestions_prepend(path: Seq<u8>, b: u8, ws: Seq<Seq<u8>>)
    ensures
        suggestions(path, prepend(b, ws)) =~= suggestions(path.push(b), ws),
{
    assert forall|i: int| 0 <= i < ws.len() implies #[trigger] suggestions(path, prepend(b, ws))[i]
        == suggestions(path.push(b), ws)[i] by {
        assert(path + (seq![b] + ws[i]) =~= path.push(b) + ws[i]);
    }
}

proof fn lemma_suggestions_add(path: Seq<u8>, a: Seq<Seq<u8>>, b: Seq<Seq<u8>>)
    ensures
        suggestions(path, a + b) =~= suggestions(path, a) + suggestions(path, b),
{
}

/// A word below the `k`-th child of `n`, behind that child's byte, is a word below `n`.
proof fn lemma_child_word(n: TrieNode, k: int, w: Seq<u8>)
    requires
        0 <= k < n.children@.len(),
        node_words(n.children@[k].1).contains(w),
    ensures
        node_words(n).contains(seq![n.children@[k].0] + w),
{
    let x = seq![n.children@[k].0] + w;
    let len = n.children@.len() as int;
    lemma_children_words(n, len, x);
    assert(x.drop_first() =~= w);
    let head: Seq<Seq<u8>> = if n.is_terminal {
        seq![Seq::<u8>::empty()]
    } else {
        Seq::empty()
    };
    let rest = children_words(n, len);
    assert(node_words(n) == head + rest);
    let y = choose|y: int| 0 <= y < rest.len() && rest[y] == x;
    assert((head + rest)[head.len() + y] == x);
}

/// Append to `results` the suggestions below `node`, in pre-order, stopping
/// once `results` holds `limit` strings. `path` holds the bytes that lead to
/// `node`; with every word below it they make valid UTF-8.
fn collect(node: &TrieNode, path: &Vec<u8>, limit: usize, results: &mut Vec<String>)
    requires
        old(results)@.len() <= limit,
        forall|w: Seq<u8>| #[trigger] node_words(*node).contains(w) ==> valid_utf8(path@ + w),
    ensures
        string_views(final(results)@) == take_upto(
            string_views(old(results)@) + suggestions(path@, node_words(*node)),
            limit as nat,
        ),
    decreases *node,
{
    broadcast use vstd::utf8::encode_utf8_decode_utf8;

    let ghost start = string_views(results@);
    let ghost all = suggestions(path@, node_words(*node));
    if results.len() >= limit {
        assert(take_upto(start + all, limit as nat) =~= start);
        return;
    }
    let ghost term: Seq<Seq<u8>> = if node.is_terminal {
        seq![Seq::<u8>::empty()]
    } else {
        Seq::empty()
    };
    assert(node_words(*node) == term + children_words(*node, node.children@.len() as int));
    if node.is_terminal {
        assert(node_words(*node)[0] == Seq::<u8>::empty());
        assert(node_words(*node).contains(Seq::<u8>::empty()));
        assert(path@ + Seq::<u8>::empty() =~= path@);
        match string_from_utf8(path.clone()) {
            Some(word) => {
                results.push(word);
                assert(decode_utf8(path@ + Seq::<u8>::empty()) == word@);
                assert(string_views(results@) =~= start + suggestions(path@, term));
            },
            None => {
                assert(false);
            },
        }
    } else {
        assert(string_views(results@) =~= start + suggestions(path@, term));
    }
    let mut k: usize = 0;
    assert(children_words(*node, 0) =~= Seq::<Seq<u8>>::empty());
    while k < node.children.len()
        invariant
            k <= node.children@.len(),
            results@.len() <= limit,
            forall|w: Seq<u8>| #[trigger] node_words(*node).contains(w) ==> valid_utf8(path@ + w),
            string_views(results@) == take_upto(
                start + suggestions(path@, term + children_words(*node, k as int)),
                limit as nat,
            ),
        decreases node.children.len() - k,
    {
        let entry = &node.children[k];
        let mut child_path = path.clone();
        child_path.push(entry.0);
        assert forall|w: Seq<u8>| #[trigger] node_words(entry.1).contains(w) implies valid_utf8(child_path@ + w) by {
            lemma_child_word(*node, k as int, w);
            assert(path@ + (seq![entry.0] + w) =~= child_path@ + w);
        }
        let ghost mid = string_views(results@);
        collect(&entry.1, &child_path, limit, results);
        proof {
            let cw = node_words(entry.1);
            lemma_suggestions_prepend(path@, entry.0, cw);
            lemma_suggestions_add(path@, term + children_words(*node, k as int), prepend(entry.0, cw));
            assert(term + children_words(*node, k + 1) =~= (term + children_words(*node, k as int))
                + prepend(entry.0, cw));
            lemma_take_upto_append(
                start + suggestions(path@, term + children_words(*node, k as int)),
                suggestions(child_path@, cw),
                limit as nat,
            );
            assert(start + suggestions(path@, term + children_words(*node, k + 1)) =~= (start
                + suggestions(path@, term + children_words(*node, k as int))) + suggestions(
                child_path@,
                cw,
            ));
        }
        k = k + 1;
    }
}

/// A prefix trie that indexes lowercased words for autocomplete.
pub struct Trie {
    root: TrieNode,
}

impl Trie {
    /// No node has two children with one byte, and every stored word is
    /// valid UTF-8 (it is the UTF-8 of a lowercased word).
    #[verifier::type_invariant]
    spec fn well_formed(self) -> bool {
        &&& distinct_children(self.root)
        &&& forall|w: Seq<u8>| #[trigger] has_word(self.root, w) ==> valid_utf8(w)
    }

    /// The root node.
    pub closed spec fn root(&self) -> TrieNode {
        self.root
    }

    pub fn new() -> (t: Self)
        ensures
            !t.root().is_terminal,
            t.root().children@.len() == 0,
    {
        let root = TrieNode::new();
        proof {
            lemma_empty_node(root);
        }
        Self { root }
    }

    /// Insert a word into the trie (lowercased).
    pub fn insert(&mut self, word: &str)
        ensures
            inserted(old(self).root(), final(self).root(), encode_utf8(lowercase(word@))),
    {
        proof {
            use_type_invariant(&*self);
        }
        let lower = to_lowercase(word);
        let bytes = lower.as_str().as_bytes();
        let mut root = TrieNode::new();
        proof {
            lemma_empty_node(root);
        }
        std::mem::swap(&mut root, &mut self.root);
        let ghost before = root;
        assert(bytes@.skip(0) =~= bytes@);
        root.insert_bytes(bytes, 0);
        proof {
            vstd::utf8::encode_utf8_valid_utf8(lower@);
            law_insert_distinct(before, root, bytes@);
            assert forall|v: Seq<u8>| #[trigger] has_word(root, v) implies valid_utf8(v) by {
                law_insert_words(before, root, bytes@, v);
            }
        }
        self.root = root;
    }

    /// Find all words that start with the given prefix, lowercased: the
    /// stored words below the node the prefix leads to, in pre-order,
    /// decoded from UTF-8. Returns up to `limit` results.
    pub fn autocomplete(&self, prefix: &str, limit: usize) -> (res: Vec<String>)
        ensures
            string_views(res@) == match walk(self.root(), encode_utf8(lowercase(prefix@))) {
                Some(sub) => take_upto(
                    suggestions(encode_utf8(lowercase(prefix@)), node_words(sub)),
                    limit as nat,
                ),
                None => Seq::empty(),
            },
            res@.len() <= limit,
            forall|i: int| 0 <= i < res@.len() ==> {
                let b = #[trigger] encode_utf8(res@[i]@);
                let p = encode_utf8(lowercase(prefix@));
                &&& has_word(self.root(), b)
                &&& p.len() <= b.len()
                &&& b.take(p.len() as int) == p
                &&& lowercase(prefix@).len() <= res@[i]@.len()
                &&& res@[i]@.take(lowercase(prefix@).len() as int) == lowercase(prefix@)
            },
    {
        proof {
            use_type_invariant(self);
        }
        let prefix_lower = to_lowercase(prefix);
        let bytes = prefix_lower.as_str().as_bytes();
        let ghost pb = bytes@;
        let mut node = &self.root;
        let mut i: usize = 0;
        assert(pb.skip(0) =~= pb);
        while i < bytes.len()
            invariant
                i <= pb.len(),
                pb == bytes@,
                pb == encode_utf8(lowercase(prefix@)),
                walk(self.root, pb) == walk(*node, pb.skip(i as int)),
            decreases bytes.len() - i,
        {
            assert(pb.skip(i as int).drop_first() =~= pb.skip(i + 1));
            assert(pb.skip(i as int)[0] == bytes@[i as int]);
            proof {
                lemma_child_index(node.children@, bytes@[i as int]);
            }
            let ghost here = *node;
            match node.find_child(bytes[i]) {
                Some(idx) => {
                    node = &node.children[idx].1;
                    assert(walk(here, pb.skip(i as int)) == walk(*node, pb.skip(i + 1)));
                },
                None => {
                    assert(walk(here, pb.skip(i as int)) is None);
                    let empty: Vec<String> = Vec::new();
                    assert(string_views(empty@) =~= Seq::<Seq<char>>::empty());
                    return empty;
                },
            }
            i = i + 1;
        }
        assert(pb.skip(i as int) =~= Seq::<u8>::empty());
        assert(walk(*node, pb.skip(i as int)) == Some(*node));
        assert(walk(self.root, pb) == Some(*node));
        proof {
            lemma_walk_distinct(self.root, pb);
            assert(distinct_children(*node));
            assert forall|w: Seq<u8>| #[trigger] node_words(*node).contains(w) implies valid_utf8(pb + w) by {
                law_node_words(*node, w);
                law_walk_concat(self.root, pb, w);
                assert(has_word(self.root, pb + w));
            }
        }
        let path = vstd::slice::slice_to_vec(bytes);
        let mut results: Vec<String> = Vec::new();
        assert(string_views(results@) =~= Seq::<Seq<char>>::empty());
        collect(node, &path, limit, &mut results);
        let ghost ws = node_words(*node);
        assert(Seq::<Seq<char>>::empty() + suggestions(pb, ws) =~= suggestions(pb, ws));
        assert(results@.len() <= limit) by {
            assert(string_views(results@).len() == results@.len());
            assert(take_upto(suggestions(pb, ws), limit as nat).len() <= limit);
        }
        proof {
            assert forall|k: int| 0 <= k < results@.len() implies {
                let b = #[trigger] encode_utf8(results@[k]@);
                &&& has_word(self.root, b)
                &&& pb.len() <= b.len()
                &&& b.take(pb.len() as int) == pb
                &&& lowercase(prefix@).len() <= results@[k]@.len()
                &&& results@[k]@.take(lowercase(prefix@).len() as int) == lowercase(prefix@)
            } by {
                let sg = suggestions(pb, ws);
                assert(string_views(results@) == take_upto(sg, limit as nat));
                assert(string_views(results@).len() == results@.len());
                assert(sg.len() == ws.len());
                assert(take_upto(sg, limit as nat).len() <= sg.len());
                assert(k < sg.len());
                let w = ws[k];
                assert(string_views(results@)[k] == results@[k]@);
                assert(take_upto(sg, limit as nat)[k] == sg[k]);
                assert(results@[k]@ == decode_utf8(pb + w));
                assert(ws.contains(w));
                law_node_words(*node, w);
                law_walk_concat(self.root, pb, w);
                assert(node_words(*node).contains(w));
                assert(valid_utf8(pb + w));
                vstd::utf8::decode_utf8_encode_utf8(pb + w);
                assert((pb + w).take(pb.len() as int) =~= pb);
                lemma_utf8_prefix(lowercase(prefix@), results@[k]@);
            }
        }
        results
    }
}

proof fn lemma_child_index_first(cs: Seq<(u8, TrieNode)>, b: u8, i: int)
    requires
        0 <= i < cs.len(),
        cs[i].0 == b,
        forall|j: int| 0 <= j < i ==> #[trigger] cs[j].0 != b,
    ensures
        child_index(cs, b) == Some(i),
{
    lemma_child_index(cs, b);
    match child_index(cs, b) {
        Some(k) => {
            if k < i {
                assert(cs[k].0 != b);
            }
            if k > i {
                assert(cs[i].0 != b);
            }
        },
        None => {
            assert(cs[i].0 != b);
        },
    }
}

proof fn lemma_child_index_same_bytes(a: Seq<(u8, TrieNode)>, c: Seq<(u8, TrieNode)>, b: u8)
    requires
        a.len() == c.len(),
        forall|j: int| 0 <= j < a.len() ==> (#[trigger] a[j]).0 == c[j].0,
    ensures
        child_index(a, b) == child_index(c, b),
{
    lemma_child_index(a, b);
    lemma_child_index(c, b);
    match child_index(a, b) {
        Some(i) => {
            assert forall|j: int| 0 <= j < i implies #[trigger] c[j].0 != b by {
                assert(a[j].0 != b);
            }
            lemma_child_index_first(c, b, i);
        },
        None => {
            if child_index(c, b) is Some {
                let k = child_index(c, b)->0;
                assert(a[k].0 == c[k].0);
            }
        },
    }
}

proof fn lemma_chain_words(n: TrieNode, w: Seq<u8>, v: Seq<u8>)
    requires
        chain(n, w),
    ensures
        has_word(n, v) <==> v == w,
    decreases w.len(),
{
    if v.len() == 0 {
        if w.len() > 0 {
            assert(v != w);
        } else {
            assert(v =~= w);
        }
    } else if w.len() == 0 {
        assert(child_index(n.children@, v[0]) is None);
        assert(v != w);
    } else {
        let c = n.children@[0].1;
        if v[0] == w[0] {
            lemma_child_index_first(n.children@, v[0], 0);
            lemma_chain_words(c, w.drop_first(), v.drop_first());
            if v.drop_first() == w.drop_first() {
                assert(v =~= seq![v[0]] + v.drop_first());
                assert(w =~= seq![w[0]] + w.drop_first());
            }
            if v == w {
                assert(v.drop_first() =~= w.drop_first());
            }
        } else {
            lemma_child_index(n.children@, v[0]);
            assert(child_index(n.children@, v[0]) is None);
            assert(v != w);
        }
    }
}

/// After a word is inserted, the trie holds it, and holds any other word
/// exactly when it held it before.
pub proof fn law_insert_words(o: TrieNode, n: TrieNode, w: Seq<u8>, v: Seq<u8>)
    requires
        inserted(o, n, w),
    ensures
        has_word(n, w),
        has_word(n, v) <==> has_word(o, v) || v == w,
    decreases w.len(),
{
    lemma_insert_one(o, n, w, v);
    lemma_insert_one(o, n, w, w);
}

proof fn lemma_insert_one(o: TrieNode, n: TrieNode, w: Seq<u8>, v: Seq<u8>)
    requires
        inserted(o, n, w),
    ensures
        has_word(n, v) <==> has_word(o, v) || v == w,
    decreases w.len(),
{
    if w.len() == 0 {
        if v.len() == 0 {
            assert(v =~= w);
        } else {
            assert(v != w);
            assert(child_index(n.children@, v[0]) == child_index(o.children@, v[0]));
        }
    } else if v.len() == 0 {
        assert(v != w);
    } else {
        let oc = o.children@;
        let nc = n.children@;
        lemma_child_index(oc, w[0]);
        match child_index(oc, w[0]) {
            Some(i) => {
                assert forall|j: int| 0 <= j < oc.len() implies (#[trigger] oc[j]).0 == nc[j].0 by {
                    if j != i {
                        assert(nc[j] == oc[j]);
                    }
                }
                lemma_child_index_same_bytes(oc, nc, v[0]);
                if v[0] == w[0] {
                    lemma_insert_one(oc[i].1, nc[i].1, w.drop_first(), v.drop_first());
                    if v.drop_first() == w.drop_first() {
                        assert(v =~= seq![v[0]] + v.drop_first());
                        assert(w =~= seq![w[0]] + w.drop_first());
                    }
                    if v == w {
                        assert(v.drop_first() =~= w.drop_first());
                    }
                } else {
                    assert(v != w);
                    lemma_child_index(oc, v[0]);
                    if let Some(k) = child_index(oc, v[0]) {
                        assert(k != i);
                        assert(nc[k] == oc[k]);
                    }
                }
            },
            None => {
                let last = oc.len() as int;
                assert(nc[last] == nc.last());
                if v[0] == w[0] {
                    assert forall|j: int| 0 <= j < last implies #[trigger] nc[j].0 != v[0] by {
                        assert(nc[j] == oc[j]);
                    }
                    lemma_child_index_first(nc, v[0], last);
                    lemma_chain_words(nc.last().1, w.drop_first(), v.drop_first());
                    if v.drop_first() == w.drop_first() {
                        assert(v =~= seq![v[0]] + v.drop_first());
                        assert(w =~= seq![w[0]] + w.drop_first());
                    }
                    if v == w {
                        assert(v.drop_first() =~= w.drop_first());
                    }
                } else {
                    assert(v != w);
                    lemma_child_index(oc, v[0]);
                    lemma_child_index(nc, v[0]);
                    match child_index(oc, v[0]) {
                        Some(k) => {
                            assert forall|j: int| 0 <= j < k implies #[trigger] nc[j].0 != v[0] by {
                                assert(nc[j] == oc[j]);
                            }
                            assert(nc[k] == oc[k]);
                            lemma_child_index_first(nc, v[0], k);
                        },
                        None => {
                            if let Some(k) = child_index(nc, v[0]) {
                                if k < last {
                                    assert(nc[k] == oc[k]);
                                }
                            }
                        },
                    }
                }
            },
        }
    }
}

/// No two children of a node share a byte, at every node.
pub open spec fn distinct_children(n: TrieNode) -> bool
    decreases n, n.children@.len() + 1,
{
    &&& forall|i: int, j: int|
        0 <= i < j < n.children@.len() ==> (#[trigger] n.children@[i]).0 != (#[trigger] n.children@[j]).0
    &&& children_distinct(n, n.children@.len() as int)
}

/// The first `k` children of `n` have distinct children throughout.
pub open spec fn children_distinct(n: TrieNode, k: int) -> bool
    decreases n, k,
{
    if k <= 0 || k > n.children@.len() {
        true
    } else {
        children_distinct(n, k - 1) && distinct_children(n.children@[k - 1].1)
    }
}

pub proof fn lemma_children_distinct(n: TrieNode, k: int)
    requires
        0 <= k <= n.children@.len(),
    ensures
        children_distinct(n, k) <==> forall|i: int| 0 <= i < k ==> distinct_children(#[trigger] n.children@[i].1),
    decreases k,
{
    if k > 0 {
        lemma_children_distinct(n, k - 1);
    }
}

proof fn lemma_chain_distinct(n: TrieNode, w: Seq<u8>)
    requires
        chain(n, w),
    ensures
        distinct_children(n),
    decreases w.len(),
{
    if w.len() > 0 {
        lemma_chain_distinct(n.children@[0].1, w.drop_first());
        lemma_children_distinct(n, 1);
    }
}

/// Inserting a word keeps the children of every node distinct.
pub proof fn law_insert_distinct(o: TrieNode, n: TrieNode, w: Seq<u8>)
    requires
        inserted(o, n, w),
        distinct_children(o),
    ensures
        distinct_children(n),
    decreases w.len(),
{
    let oc = o.children@;
    let nc = n.children@;
    lemma_children_distinct(o, oc.len() as int);
    lemma_children_distinct(n, nc.len() as int);
    if w.len() == 0 {
        assert(nc == oc);
    } else {
        lemma_child_index(oc, w[0]);
        match child_index(oc, w[0]) {
            Some(i) => {
                law_insert_distinct(oc[i].1, nc[i].1, w.drop_first());
                assert forall|a: int, b: int| 0 <= a < b < nc.len() implies (#[trigger] nc[a]).0 != (#[trigger] nc[b]).0 by {
                    if a != i {
                        assert(nc[a] == oc[a]);
                    }
                    if b != i {
                        assert(nc[b] == oc[b]);
                    }
                    assert(oc[a].0 != oc[b].0);
                }
                assert forall|a: int| 0 <= a < nc.len() implies distinct_children(#[trigger] nc[a].1) by {
                    if a != i {
                        assert(nc[a] == oc[a]);
                    }
                }
            },
            None => {
                let last = oc.len() as int;
                assert(nc[last] == nc.last());
                lemma_chain_distinct(nc.last().1, w.drop_first());
                assert forall|a: int, b: int| 0 <= a < b < nc.len() implies (#[trigger] nc[a]).0 != (#[trigger] nc[b]).0 by {
                    assert(nc[a] == oc[a]);
                    if b < last {
                        assert(nc[b] == oc[b]);
                        assert(oc[a].0 != oc[b].0);
                    } else {
                        assert(oc[a].0 != w[0]);
                    }
                }
                assert forall|a: int| 0 <= a < nc.len() implies distinct_children(#[trigger] nc[a].1) by {
                    if a < last {
                        assert(nc[a] == oc[a]);
                    }
                }
            },
        }
    }
}

proof fn lemma_children_words(n: TrieNode, k: int, w: Seq<u8>)
    requires
        0 <= k <= n.children@.len(),
    ensures
        children_words(n, k).contains(w) <==> exists|i: int|
            0 <= i < k && w.len() > 0 && w[0] == n.children@[i].0 && #[trigger] node_words(n.children@[i].1).contains(w.drop_first()),
    decreases k,
{
    if k > 0 {
        lemma_children_words(n, k - 1, w);
        let c = n.children@[k - 1];
        let pre = children_words(n, k - 1);
        let add = prepend(c.0, node_words(c.1));
        assert(children_words(n, k) == pre + add);
        if add.contains(w) {
            let x = choose|x: int| 0 <= x < add.len() && add[x] == w;
            assert(w == seq![c.0] + node_words(c.1)[x]);
            assert(w.drop_first() =~= node_words(c.1)[x]);
            assert(node_words(n.children@[k - 1].1).contains(w.drop_first()));
        }
        if w.len() > 0 && w[0] == c.0 && node_words(c.1).contains(w.drop_first()) {
            let x = choose|x: int| 0 <= x < node_words(c.1).len() && node_words(c.1)[x] == w.drop_first();
            assert(add[x] == seq![c.0] + w.drop_first());
            assert(w =~= seq![c.0] + w.drop_first());
            assert((pre + add)[pre.len() + x] == w);
        }
        if (pre + add).contains(w) {
            let y = choose|y: int| 0 <= y < (pre + add).len() && (pre + add)[y] == w;
            if y < pre.len() {
                assert(pre[y] == w);
            } else {
                assert(add[y - pre.len()] == w);
            }
        }
        if pre.contains(w) {
            let y = choose|y: int| 0 <= y < pre.len() && pre[y] == w;
            assert((pre + add)[y] == w);
        }
    } else {
        assert(children_words(n, k) =~= Seq::<Seq<u8>>::empty());
    }
}

/// Over a trie whose nodes have distinct children, the words listed below a
/// node are exactly the words it holds.
pub proof fn law_node_words(n: TrieNode, w: Seq<u8>)
    requires
        distinct_children(n),
    ensures
        node_words(n).contains(w) <==> has_word(n, w),
    decreases w.len(),
{
    let cs = n.children@;
    let head: Seq<Seq<u8>> = if n.is_terminal {
        seq![Seq::<u8>::empty()]
    } else {
        Seq::empty()
    };
    let rest = children_words(n, cs.len() as int);
    assert(node_words(n) == head + rest);
    lemma_children_words(n, cs.len() as int, w);
    lemma_children_distinct(n, cs.len() as int);
    if w.len() == 0 {
        if n.is_terminal {
            assert((head + rest)[0] == w);
        }
        if (head + rest).contains(w) {
            let y = choose|y: int| 0 <= y < (head + rest).len() && (head + rest)[y] == w;
            if y >= head.len() {
                assert(rest[y - head.len()] == w);
            } else {
                assert(n.is_terminal);
            }
        }
    } else {
        lemma_child_index(cs, w[0]);
        if (head + rest).contains(w) {
            let y = choose|y: int| 0 <= y < (head + rest).len() && (head + rest)[y] == w;
            if y < head.len() {
                assert(head[y].len() == 0);
            }
            assert(rest[y - head.len()] == w);
            assert(rest.contains(w));
            let i = choose|i: int|
                0 <= i < cs.len() && w.len() > 0 && w[0] == cs[i].0 && #[trigger] node_words(cs[i].1).contains(w.drop_first());
            assert forall|j: int| 0 <= j < i implies #[trigger] cs[j].0 != w[0] by {
                assert(cs[j].0 != cs[i].0);
            }
            lemma_child_index_first(cs, w[0], i);
            law_node_words(cs[i].1, w.drop_first());
        }
        if has_word(n, w) {
            let i = child_index(cs, w[0])->0;
            law_node_words(cs[i].1, w.drop_first());
            assert(node_words(cs[i].1).contains(w.drop_first()));
            assert(rest.contains(w));
            let y = choose|y: int| 0 <= y < rest.len() && rest[y] == w;
            assert((head + rest)[head.len() + y] == w);
        }
    }
}

/// The node that `p` then `w` lead to is the one `w` leads to from where `p` leads.
pub proof fn law_walk_concat(n: TrieNode, p: Seq<u8>, w: Seq<u8>)
    ensures
        walk(n, p + w) == match walk(n, p) {
            Some(sub) => walk(sub, w),
            None => None,
        },
    decreases p.len(),
{
    if p.len() == 0 {
        assert(p + w =~= w);
    } else {
        assert((p + w)[0] == p[0]);
        assert((p + w).drop_first() =~= p.drop_first() + w);
        match child_index(n.children@, p[0]) {
            Some(i) => {
                law_walk_concat(n.children@[i].1, p.drop_first(), w);
            },
            None => {},
        }
    }
}

/// Over a trie whose nodes have distinct children, no word is listed twice
/// below a node.
pub proof fn law_node_words_distinct(n: TrieNode)
    requires
        distinct_children(n),
    ensures
        node_words(n).no_duplicates(),
    decreases n, n.children@.len() + 1,
{
    let k = n.children@.len() as int;
    lemma_children_words_distinct(n, k);
    let head: Seq<Seq<u8>> = if n.is_terminal {
        seq![Seq::<u8>::empty()]
    } else {
        Seq::empty()
    };
    let rest = children_words(n, k);
    let all = head + rest;
    assert(node_words(n) == all);
    assert forall|i: int, j: int| 0 <= i < all.len() && 0 <= j < all.len() && i != j implies all[i] != all[j] by {
        if i < head.len() && j < head.len() {
        } else if i < head.len() {
            assert(all[j] == rest[j - head.len()]);
            assert(rest[j - head.len()].len() > 0);
        } else if j < head.len() {
            assert(all[i] == rest[i - head.len()]);
            assert(rest[i - head.len()].len() > 0);
        } else {
            assert(all[i] == rest[i - head.len()]);
            assert(all[j] == rest[j - head.len()]);
        }
    }
}

proof fn lemma_children_words_distinct(n: TrieNode, k: int)
    requires
        distinct_children(n),
        0 <= k <= n.children@.len(),
    ensures
        children_words(n, k).no_duplicates(),
        forall|i: int| 0 <= i < children_words(n, k).len() ==> (#[trigger] children_words(n, k)[i]).len() > 0
            && exists|c: int| 0 <= c < k && children_words(n, k)[i][0] == n.children@[c].0,
    decreases n, k,
{
    if k > 0 {
        let cs = n.children@;
        lemma_children_words_distinct(n, k - 1);
        lemma_children_distinct(n, cs.len() as int);
        assert(distinct_children(cs[k - 1].1));
        law_node_words_distinct(cs[k - 1].1);
        let pre = children_words(n, k - 1);
        let nw = node_words(cs[k - 1].1);
        let add = prepend(cs[k - 1].0, nw);
        let all = pre + add;
        assert(children_words(n, k) == all);
        assert forall|i: int| 0 <= i < all.len() implies (#[trigger] all[i]).len() > 0
            && exists|c: int| 0 <= c < k && all[i][0] == cs[c].0 by {
            if i < pre.len() {
                assert(all[i] == pre[i]);
                let c = choose|c: int| 0 <= c < k - 1 && pre[i][0] == cs[c].0;
            } else {
                assert(all[i] == add[i - pre.len()]);
                assert(add[i - pre.len()] == seq![cs[k - 1].0] + nw[i - pre.len()]);
                assert(all[i][0] == cs[k - 1].0);
            }
        }
        assert forall|i: int, j: int| 0 <= i < all.len() && 0 <= j < all.len() && i != j implies all[i] != all[j] by {
            if i < pre.len() && j < pre.len() {
                assert(all[i] == pre[i] && all[j] == pre[j]);
            } else if i >= pre.len() && j >= pre.len() {
                let a = i - pre.len();
                let b = j - pre.len();
                assert(all[i] == seq![cs[k - 1].0] + nw[a]);
                assert(all[j] == seq![cs[k - 1].0] + nw[b]);
                assert(nw[a] != nw[b]);
                if all[i] == all[j] {
                    assert(all[i].drop_first() =~= nw[a]);
                    assert(all[j].drop_first() =~= nw[b]);
                }
            } else {
                let (p, q) = if i < pre.len() { (i, j) } else { (j, i) };
                assert(all[p] == pre[p]);
                let c = choose|c: int| 0 <= c < k - 1 && pre[p][0] == cs[c].0;
                assert(all[q] == seq![cs[k - 1].0] + nw[q - pre.len()]);
                assert(all[q][0] == cs[k - 1].0);
                assert(cs[c].0 != cs[k - 1].0);
            }
        }
    } else {
        assert(children_words(n, k) =~= Seq::<Seq<u8>>::empty());
    }
}

proof fn lemma_empty_node(n: TrieNode)
    requires
        !n.is_terminal,
        n.children@.len() == 0,
    ensures
        distinct_children(n),
        forall|w: Seq<u8>| !#[trigger] has_word(n, w),
{
    assert forall|w: Seq<u8>| !#[trigger] has_word(n, w) by {
        if w.len() > 0 {
            assert(child_index(n.children@, w[0]) is None);
        }
    }
}

/// The node a path leads to in a trie with distinct children has distinct children.
pub proof fn lemma_walk_distinct(n: TrieNode, p: Seq<u8>)
    requires
        distinct_children(n),
    ensures
        walk(n, p) matches Some(sub) ==> distinct_children(sub),
    decreases p.len(),
{
    if p.len() > 0 {
        match child_index(n.children@, p[0]) {
            Some(i) => {
                lemma_child_index(n.children@, p[0]);
                lemma_children_distinct(n, n.children@.len() as int);
                lemma_walk_distinct(n.children@[i].1, p.drop_first());
            },
            None => {},
        }
    }
}

/// What the bytes `p` lead to below `n`: the words stored under that node,
/// in pre-order, or `None` when no stored word begins with `p`.
pub open spec fn words_below(n: TrieNode, p: Seq<u8>) -> Option<Seq<Seq<u8>>> {
    match walk(n, p) {
        Some(sub) => Some(node_words(sub)),
        None => None,
    }
}

/// Children with the same bytes, in the same order, lead the same way.
proof fn lemma_same_child_index(a: Seq<(u8, TrieNode)>, b: Seq<(u8, TrieNode)>, x: u8)
    requires
        a.len() == b.len(),
        forall|j: int| 0 <= j < a.len() ==> (#[trigger] a[j]).0 == b[j].0,
    ensures
        child_index(a, x) == child_index(b, x),
    decreases a.len(),
{
    if a.len() > 0 {
        let ra = a.drop_first();
        let rb = b.drop_first();
        assert forall|j: int| 0 <= j < ra.len() implies (#[trigger] ra[j]).0 == rb[j].0 by {
            assert(ra[j] == a[j + 1] && rb[j] == b[j + 1]);
        }
        lemma_same_child_index(ra, rb, x);
        assert(a[0].0 == b[0].0);
    }
}

/// Children with the same bytes and the same words give the same words.
proof fn lemma_same_children_words(a: TrieNode, b: TrieNode, k: int)
    requires
        a.children@.len() == b.children@.len(),
        forall|j: int| 0 <= j < a.children@.len() ==> (#[trigger] a.children@[j]).0 == b.children@[j].0
            && node_words(a.children@[j].1) == node_words(b.children@[j].1),
    ensures
        children_words(a, k) == children_words(b, k),
    decreases k,
{
    if k > 0 && k <= a.children@.len() {
        lemma_same_children_words(a, b, k - 1);
        assert(a.children@[k - 1].0 == b.children@[k - 1].0);
    }
}

/// Inserting a word that is already stored changes nothing that a prefix
/// leads to: every prefix reaches the same stored words, in the same order.
pub proof fn law_insert_again(o: TrieNode, n: TrieNode, w: Seq<u8>, p: Seq<u8>)
    requires
        inserted(o, n, w),
        has_word(o, w),
    ensures
        words_below(n, p) == words_below(o, p),
    decreases w.len(), p.len(),
{
    let oc = o.children@;
    let nc = n.children@;
    if w.len() == 0 {
        assert(o.is_terminal);
        lemma_same_children_words(n, o, nc.len() as int);
        if p.len() > 0 {
            assert(nc == oc);
        }
    } else {
        lemma_child_index(oc, w[0]);
        let i = child_index(oc, w[0])->Some_0;
        assert(walk(o, w) == walk(oc[i].1, w.drop_first()));
        assert(has_word(oc[i].1, w.drop_first()));
        assert forall|j: int| 0 <= j < nc.len() implies (#[trigger] nc[j]).0 == oc[j].0
            && node_words(nc[j].1) == node_words(oc[j].1) by {
            if j == i {
                law_insert_again(oc[i].1, nc[i].1, w.drop_first(), Seq::empty());
            }
        }
        lemma_same_children_words(n, o, nc.len() as int);
        if p.len() > 0 {
            lemma_same_child_index(nc, oc, p[0]);
            match child_index(oc, p[0]) {
                Some(j) => {
                    lemma_child_index(oc, p[0]);
                    if j == i {
                        law_insert_again(oc[i].1, nc[i].1, w.drop_first(), p.drop_first());
                    }
                },
                None => {},
            }
        }
    }
}

/// Inserting an ASCII word ignores case: its ASCII uppercase lowercases to
/// the same stored key, so inserting the uppercase form into a trie that
/// holds the word changes nothing that a prefix leads to.
pub proof fn law_insert_ignores_case(o: TrieNode, n: TrieNode, w: Seq<char>, p: Seq<u8>)
    requires
        is_ascii_text(w),
        has_word(o, encode_utf8(lowercase(w))),
        inserted(o, n, encode_utf8(lowercase(ascii_uppercase(w)))),
    ensures
        lowercase(ascii_uppercase(w)) == lowercase(w),
        words_below(n, p) == words_below(o, p),
{
    lemma_ascii_lowercase(w);
    law_insert_again(o, n, encode_utf8(lowercase(w)), p);
}

} // verus!
