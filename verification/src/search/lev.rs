//! Levenshtein edit distance, computed with a two-row dynamic program.

use vstd::prelude::*;
use crate::order::{compare_bytes, lemma_lex_asymmetric, lemma_lex_total, lemma_lex_transitive, lex_lt, Cmp};
use crate::text::{lowercase, string_views, to_lowercase, utf8_len};
use vstd::utf8::encode_utf8;

verus! {

/// Cost of substituting byte `x` by byte `y`.
pub open spec fn subst_cost(x: u8, y: u8) -> nat {
    if x == y { 0 } else { 1 }
}

pub open spec fn min3(x: nat, y: nat, z: nat) -> nat {
    let m = if x <= y { x } else { y };
    if m <= z { m } else { z }
}

/// Edit distance between the first `i` bytes of `a` and the first `j` bytes of `b`:
/// the least number of single-byte insertions, deletions and substitutions
/// that turn one into the other.
pub open spec fn edit_distance_prefix(a: Seq<u8>, b: Seq<u8>, i: nat, j: nat) -> nat
    decreases i + j,
{
    if i == 0 {
        j
    } else if j == 0 {
        i
    } else {
        min3(
            edit_distance_prefix(a, b, (i - 1) as nat, j) + 1,
            edit_distance_prefix(a, b, i, (j - 1) as nat) + 1,
            edit_distance_prefix(a, b, (i - 1) as nat, (j - 1) as nat) + subst_cost(
                a[i - 1],
                b[j - 1],
            ),
        )
    }
}

/// Levenshtein distance between two byte sequences.
pub open spec fn edit_distance(a: Seq<u8>, b: Seq<u8>) -> nat {
    edit_distance_prefix(a, b, a.len(), b.len())
}

/// The distance between prefixes never exceeds the longer prefix.
pub proof fn lemma_edit_distance_bound(a: Seq<u8>, b: Seq<u8>, i: nat, j: nat)
    ensures
        edit_distance_prefix(a, b, i, j) <= if i <= j { j } else { i },
    decreases i + j,
{
    if i > 0 && j > 0 {
        lemma_edit_distance_bound(a, b, (i - 1) as nat, (j - 1) as nat);
    }
}

/// Calculate the Levenshtein edit distance between two byte slices.
pub fn levenshtein_distance(a: &[u8], b: &[u8]) -> (d: usize)
    requires
        a.len() < usize::MAX,
        b.len() < usize::MAX,
    ensures
        d == edit_distance(a@, b@),
{
    let len_a = a.len();
    let len_b = b.len();

    if len_a == 0 {
        return len_b;
    }
    if len_b == 0 {
        return len_a;
    }

    let mut prev_row: Vec<usize> = Vec::with_capacity(len_b + 1);
    let mut k: usize = 0;
    while k <= len_b
        invariant
            k <= len_b + 1,
            len_b == b@.len(),
            len_b < usize::MAX,
            prev_row@.len() == k,
            forall|j: int| 0 <= j < k ==> prev_row@[j] == j,
        decreases len_b + 1 - k,
    {
        prev_row.push(k);
        k = k + 1;
    }
    let mut curr_row: Vec<usize> = vec![0; len_b + 1];

    let mut i: usize = 1;
    while i <= len_a
        invariant
            1 <= i <= len_a + 1,
            len_a == a@.len(),
            len_b == b@.len(),
            len_a < usize::MAX,
            len_b < usize::MAX,
            prev_row@.len() == len_b + 1,
            curr_row@.len() == len_b + 1,
            forall|j: int|
                0 <= j <= len_b ==> #[trigger] prev_row@[j] == edit_distance_prefix(
                    a@,
                    b@,
                    (i - 1) as nat,
                    j as nat,
                ),
        decreases len_a + 1 - i,
    {
        curr_row.set(0, i);
        let mut j: usize = 1;
        while j <= len_b
            invariant
                1 <= i <= len_a,
                1 <= j <= len_b + 1,
                len_a == a@.len(),
                len_b == b@.len(),
                len_a < usize::MAX,
                len_b < usize::MAX,
                prev_row@.len() == len_b + 1,
                curr_row@.len() == len_b + 1,
                forall|k: int|
                    0 <= k <= len_b ==> #[trigger] prev_row@[k] == edit_distance_prefix(
                        a@,
                        b@,
                        (i - 1) as nat,
                        k as nat,
                    ),
                forall|k: int|
                    0 <= k < j ==> #[trigger] curr_row@[k] == edit_distance_prefix(
                        a@,
                        b@,
                        i as nat,
                        k as nat,
                    ),
            decreases len_b + 1 - j,
        {
            proof {
                lemma_edit_distance_bound(a@, b@, (i - 1) as nat, j as nat);
                lemma_edit_distance_bound(a@, b@, i as nat, (j - 1) as nat);
                lemma_edit_distance_bound(a@, b@, (i - 1) as nat, (j - 1) as nat);
            }
            let cost: usize = if a[i - 1] == b[j - 1] { 0 } else { 1 };
            let deletion = prev_row[j] + 1;
            let insertion = curr_row[j - 1] + 1;
            let substitution = prev_row[j - 1] + cost;
            let m1 = if deletion <= insertion { deletion } else { insertion };
            let best = if m1 <= substitution { m1 } else { substitution };
            curr_row.set(j, best);
            j = j + 1;
        }
        std::mem::swap(&mut prev_row, &mut curr_row);
        i = i + 1;
    }

    prev_row[len_b]
}

/// The bytes that a string's lowercase form is made of.
pub open spec fn lowered_bytes(s: Seq<char>) -> Seq<u8> {
    encode_utf8(lowercase(s))
}

/// Edit distance between the lowercase forms of two strings.
pub open spec fn match_distance(query: Seq<char>, candidate: Seq<char>) -> nat {
    edit_distance(lowered_bytes(query), lowered_bytes(candidate))
}

/// The candidates within `max` edits of the query, each with its distance,
/// in the order the candidates come.
pub open spec fn fuzzy_matches(query: Seq<char>, candidates: Seq<Seq<char>>, max: nat) -> Seq<
    (Seq<char>, nat),
>
    decreases candidates.len(),
{
    if candidates.len() == 0 {
        Seq::empty()
    } else {
        let rest = fuzzy_matches(query, candidates.drop_last(), max);
        let d = match_distance(query, candidates.last());
        if d <= max {
            rest.push((candidates.last(), d))
        } else {
            rest
        }
    }
}

/// `x` sorts strictly before `y`: smaller distance first, then the
/// candidate's bytes in lexicographic order.
pub open spec fn match_before(x: (Seq<char>, nat), y: (Seq<char>, nat)) -> bool {
    x.1 < y.1 || (x.1 == y.1 && lex_lt(encode_utf8(x.0), encode_utf8(y.0)))
}

/// No element sorts strictly before an element that precedes it.
pub open spec fn matches_sorted(s: Seq<(Seq<char>, nat)>) -> bool {
    forall|i: int, j: int| 0 <= i < j < s.len() ==> !match_before(#[trigger] s[j], #[trigger] s[i])
}

pub open spec fn match_view(m: Seq<(String, usize)>) -> Seq<(Seq<char>, nat)> {
    m.map_values(|p: (String, usize)| (p.0@, p.1 as nat))
}

proof fn lemma_match_before_order(x: (Seq<char>, nat), y: (Seq<char>, nat), z: (Seq<char>, nat))
    ensures
        !(match_before(x, y) && match_before(y, x)),
        match_before(x, y) && match_before(y, z) ==> match_before(x, z),
        !match_before(x, y) && !match_before(y, z) ==> !match_before(x, z) || (x.1 == z.1
            && encode_utf8(x.0) == encode_utf8(z.0)),
{
    lemma_lex_asymmetric(encode_utf8(x.0), encode_utf8(y.0));
    if match_before(x, y) && match_before(y, z) && x.1 == y.1 && y.1 == z.1 {
        lemma_lex_transitive(encode_utf8(x.0), encode_utf8(y.0), encode_utf8(z.0));
    }
    if !match_before(x, y) && !match_before(y, z) && x.1 == y.1 && y.1 == z.1 {
        lemma_lex_total(encode_utf8(x.0), encode_utf8(y.0));
        lemma_lex_total(encode_utf8(y.0), encode_utf8(z.0));
        if lex_lt(encode_utf8(x.0), encode_utf8(z.0)) {
            if lex_lt(encode_utf8(z.0), encode_utf8(y.0)) {
                lemma_lex_transitive(encode_utf8(x.0), encode_utf8(z.0), encode_utf8(y.0));
            }
        }
    }
}

proof fn lemma_insert_to_multiset<A>(s: Seq<A>, p: int, x: A)
    requires
        0 <= p <= s.len(),
    ensures
        s.insert(p, x).to_multiset() =~= s.to_multiset().insert(x),
{
    broadcast use vstd::seq_lib::group_to_multiset_ensures;

    let t = s.insert(p, x);
    assert(t.remove(p) =~= s);
    assert(t[p] == x);
    assert(t.contains(x));
}

/// Insert `m` into the sorted list `out`, after every element that does not
/// sort after it.
fn insert_sorted(out: &mut Vec<(String, usize)>, m: (String, usize))
    requires
        matches_sorted(match_view(old(out)@)),
    ensures
        matches_sorted(match_view(final(out)@)),
        match_view(final(out)@).to_multiset() =~= match_view(old(out)@).to_multiset().insert(
            (m.0@, m.1 as nat),
        ),
{
    let ghost mv = (m.0@, m.1 as nat);
    let ghost before = match_view(out@);
    let mut p: usize = 0;
    let mut found = false;
    while !found && p < out.len()
        invariant
            mv == (m.0@, m.1 as nat),
            p <= out@.len(),
            found ==> p < out@.len() && match_before(mv, before[p as int]),
            out@ == old(out)@,
            before == match_view(out@),
            matches_sorted(before),
            forall|k: int| 0 <= k < p ==> !match_before(mv, #[trigger] before[k]),
        decreases out.len() - p + (if found { 0int } else { 1int }),
    {
        let entry = &out[p];
        assert(before[p as int] == (entry.0@, entry.1 as nat));
        let lt = if m.1 < entry.1 {
            true
        } else if m.1 == entry.1 {
            let mb = m.0.as_str().as_bytes();
            let eb = entry.0.as_str().as_bytes();
            assert(mb@ == encode_utf8(mv.0));
            assert(eb@ == encode_utf8(before[p as int].0));
            let c = compare_bytes(mb, eb);
            match c {
                Cmp::Less => true,
                _ => false,
            }
        } else {
            false
        };
        if lt {
            assert(match_before(mv, before[p as int]));
            found = true;
        } else {
            assert(!match_before(mv, before[p as int]));
            p = p + 1;
        }
    }
    let ghost pos = p as int;
    out.insert(p, m);
    proof {
        let after = match_view(out@);
        assert(after =~= before.insert(pos, mv));
        lemma_insert_to_multiset(before, pos, mv);
        assert forall|i: int, j: int| 0 <= i < j < after.len() implies !match_before(
            #[trigger] after[j],
            #[trigger] after[i],
        ) by {
            if j < pos {
                assert(after[i] == before[i] && after[j] == before[j]);
            } else if j == pos {
                assert(after[i] == before[i]);
            } else if i == pos {
                assert(after[j] == before[j - 1]);
                // before[pos] is not before mv ... mv sorts before before[pos], and before is sorted
                lemma_match_before_order(before[j - 1], before[pos], mv);
                lemma_match_before_order(mv, before[pos], before[j - 1]);
                if j - 1 > pos {
                    assert(!match_before(before[j - 1], before[pos]));
                }
            } else if i < pos {
                assert(after[i] == before[i] && after[j] == before[j - 1]);
            } else {
                assert(after[i] == before[i - 1] && after[j] == before[j - 1]);
            }
        }
    }
}

/// Find all words in `candidates` within `max_distance` edits of `query`.
/// Returns matches sorted by distance (closest first), then alphabetically.
pub fn fuzzy_match(query: &str, candidates: &[String], max_distance: usize) -> (res: Vec<
    (String, usize),
>)
    requires
        utf8_len(lowercase(query@)) < usize::MAX,
        forall|i: int|
            0 <= i < candidates@.len() ==> utf8_len(lowercase(#[trigger] candidates@[i]@))
                < usize::MAX,
    ensures
        matches_sorted(match_view(res@)),
        match_view(res@).to_multiset() =~= fuzzy_matches(
            query@,
            string_views(candidates@),
            max_distance as nat,
        ).to_multiset(),
{
    let query_lower = to_lowercase(query);
    let query_bytes = query_lower.as_str().as_bytes();
    let mut matches: Vec<(String, usize)> = Vec::new();
    let ghost cs = string_views(candidates@);
    let mut i: usize = 0;
    assert(cs.take(0) =~= Seq::<Seq<char>>::empty());
    assert(match_view(matches@) =~= Seq::<(Seq<char>, nat)>::empty());
    while i < candidates.len()
        invariant
            i <= candidates@.len(),
            cs == string_views(candidates@),
            query_bytes@ == lowered_bytes(query@),
            utf8_len(lowercase(query@)) < usize::MAX,
            forall|k: int|
                0 <= k < candidates@.len() ==> utf8_len(lowercase(#[trigger] candidates@[k]@))
                    < usize::MAX,
            matches_sorted(match_view(matches@)),
            match_view(matches@).to_multiset() =~= fuzzy_matches(
                query@,
                cs.take(i as int),
                max_distance as nat,
            ).to_multiset(),
        decreases candidates.len() - i,
    {
        let candidate_lower = to_lowercase(candidates[i].as_str());
        let dist = levenshtein_distance(query_bytes, candidate_lower.as_str().as_bytes());
        assert(cs.take(i + 1).drop_last() =~= cs.take(i as int));
        assert(cs.take(i + 1).last() == candidates@[i as int]@);
        if dist <= max_distance {
            insert_sorted(&mut matches, (candidates[i].clone(), dist));
            proof {
                broadcast use vstd::seq_lib::group_to_multiset_ensures;

            }
        }
        i = i + 1;
    }
    assert(cs.take(candidates@.len() as int) =~= cs);
    matches
}

/// Fuzzy-match `query` against `candidates` when every lowercase form fits
/// the machine's lengths (`fuzzy_match` needs that); `None` when one does not.
pub fn try_fuzzy_match(query: &str, candidates: &[String], max_distance: usize) -> (res: Option<
    Vec<(String, usize)>,
>)
    ensures
        match res {
            Some(ms) => {
                &&& utf8_len(lowercase(query@)) < usize::MAX
                &&& forall|i: int|
                    0 <= i < candidates@.len() ==> utf8_len(lowercase(#[trigger] candidates@[i]@))
                        < usize::MAX
                &&& matches_sorted(match_view(ms@))
                &&& match_view(ms@).to_multiset() =~= fuzzy_matches(
                    query@,
                    string_views(candidates@),
                    max_distance as nat,
                ).to_multiset()
            },
            None => !(utf8_len(lowercase(query@)) < usize::MAX && forall|i: int|
                0 <= i < candidates@.len() ==> utf8_len(lowercase(#[trigger] candidates@[i]@))
                    < usize::MAX),
        },
{
    let q = to_lowercase(query);
    if q.as_str().as_bytes().len() == usize::MAX {
        return None;
    }
    let mut i: usize = 0;
    while i < candidates.len()
        invariant
            i <= candidates@.len(),
            forall|k: int|
                0 <= k < i ==> utf8_len(lowercase(#[trigger] candidates@[k]@)) < usize::MAX,
        decreases candidates.len() - i,
    {
        let c = to_lowercase(candidates[i].as_str());
        if c.as_str().as_bytes().len() == usize::MAX {
            return None;
        }
        i = i + 1;
    }
    Some(fuzzy_match(query, candidates, max_distance))
}

proof fn lemma_prefix_symmetric(a: Seq<u8>, b: Seq<u8>, i: nat, j: nat)
    ensures
        edit_distance_prefix(a, b, i, j) == edit_distance_prefix(b, a, j, i),
    decreases i + j,
{
    if i > 0 && j > 0 {
        lemma_prefix_symmetric(a, b, (i - 1) as nat, j);
        lemma_prefix_symmetric(a, b, i, (j - 1) as nat);
        lemma_prefix_symmetric(a, b, (i - 1) as nat, (j - 1) as nat);
    }
}

proof fn lemma_prefix_same(a: Seq<u8>, i: nat)
    ensures
        edit_distance_prefix(a, a, i, i) == 0,
    decreases i,
{
    if i > 0 {
        lemma_prefix_same(a, (i - 1) as nat);
    }
}

proof fn lemma_prefix_lower(a: Seq<u8>, b: Seq<u8>, i: nat, j: nat)
    ensures
        edit_distance_prefix(a, b, i, j) >= if i <= j { j - i } else { i - j },
    decreases i + j,
{
    if i > 0 && j > 0 {
        lemma_prefix_lower(a, b, (i - 1) as nat, j);
        lemma_prefix_lower(a, b, i, (j - 1) as nat);
        lemma_prefix_lower(a, b, (i - 1) as nat, (j - 1) as nat);
    }
}

/// Levenshtein distance is symmetric, is zero between equal strings and the
/// other string's length against the empty string, and lies between the
/// difference of the two lengths and the longer length.
pub proof fn law_edit_distance(a: Seq<u8>, b: Seq<u8>)
    ensures
        edit_distance(a, b) == edit_distance(b, a),
        edit_distance(a, a) == 0,
        edit_distance(a, Seq::<u8>::empty()) == a.len(),
        edit_distance(a, b) >= if a.len() <= b.len() { b.len() - a.len() } else { a.len() - b.len() },
        edit_distance(a, b) <= if a.len() <= b.len() { b.len() } else { a.len() },
{
    lemma_prefix_symmetric(a, b, a.len(), b.len());
    lemma_prefix_same(a, a.len());
    lemma_prefix_lower(a, b, a.len(), b.len());
    lemma_edit_distance_bound(a, b, a.len(), b.len());
}

/// Two matches neither of which sorts before the other are the same match.
proof fn lemma_match_tie(x: (Seq<char>, nat), y: (Seq<char>, nat))
    requires
        !match_before(x, y),
        !match_before(y, x),
    ensures
        x == y,
{
    lemma_lex_total(encode_utf8(x.0), encode_utf8(y.0));
    vstd::utf8::encode_utf8_decode_utf8(x.0);
    vstd::utf8::encode_utf8_decode_utf8(y.0);
}

/// A sorted list of matches is fixed by the matches it holds: two sorted
/// lists that hold the same matches, as many times each, are equal.
pub proof fn law_sorted_matches_unique(s: Seq<(Seq<char>, nat)>, t: Seq<(Seq<char>, nat)>)
    requires
        matches_sorted(s),
        matches_sorted(t),
        s.to_multiset() == t.to_multiset(),
    ensures
        s == t,
    decreases s.len(),
{
    broadcast use vstd::seq_lib::group_to_multiset_ensures;
    broadcast use vstd::multiset::group_multiset_axioms;

    assert(s.to_multiset().len() == s.len());
    assert(t.to_multiset().len() == t.len());
    if s.len() == 0 {
        assert(s =~= t);
    } else {
        let n = s.len() as int;
        let a = s[n - 1];
        let b = t[n - 1];
        assert(s.contains(a));
        assert(s.to_multiset().count(a) > 0);
        assert(t.contains(a));
        let k = choose|k: int| 0 <= k < n && t[k] == a;
        assert(t.contains(b));
        assert(t.to_multiset().count(b) > 0);
        assert(s.contains(b));
        let m = choose|m: int| 0 <= m < n && s[m] == b;
        if k < n - 1 && m < n - 1 {
            assert(!match_before(t[n - 1], t[k]));
            assert(!match_before(s[n - 1], s[m]));
            lemma_match_tie(a, b);
        }
        assert(a == b);
        let s0 = s.drop_last();
        let t0 = t.drop_last();
        assert(s =~= s0.push(a));
        assert(t =~= t0.push(a));
        assert(s0.to_multiset() =~= t0.to_multiset()) by {
            assert(s0.push(a).to_multiset() =~= s0.to_multiset().insert(a));
            assert(t0.push(a).to_multiset() =~= t0.to_multiset().insert(a));
            assert forall|x: (Seq<char>, nat)| #[trigger] s0.to_multiset().count(x) == t0.to_multiset().count(x) by {
                assert(s0.to_multiset().insert(a).count(x) == t0.to_multiset().insert(a).count(x));
            }
        }
        assert(matches_sorted(s0)) by {
            assert forall|i: int, j: int| 0 <= i < j < s0.len() implies !match_before(#[trigger] s0[j], #[trigger] s0[i]) by {
                assert(s0[i] == s[i] && s0[j] == s[j]);
            }
        }
        assert(matches_sorted(t0)) by {
            assert forall|i: int, j: int| 0 <= i < j < t0.len() implies !match_before(#[trigger] t0[j], #[trigger] t0[i]) by {
                assert(t0[i] == t[i] && t0[j] == t[j]);
            }
        }
        law_sorted_matches_unique(s0, t0);
    }
}

/// A match is found within the smaller bound as often as within the larger
/// one when its distance is within the smaller bound, and never otherwise.
proof fn lemma_fuzzy_counts(
    query: Seq<char>,
    cands: Seq<Seq<char>>,
    d1: nat,
    d2: nat,
    x: (Seq<char>, nat),
)
    requires
        d1 <= d2,
    ensures
        fuzzy_matches(query, cands, d1).to_multiset().count(x) == if x.1 <= d1 {
            fuzzy_matches(query, cands, d2).to_multiset().count(x)
        } else {
            0
        },
    decreases cands.len(),
{
    broadcast use vstd::seq_lib::group_to_multiset_ensures;
    broadcast use vstd::multiset::group_multiset_axioms;

    if cands.len() == 0 {
        assert(!fuzzy_matches(query, cands, d1).contains(x));
        assert(!fuzzy_matches(query, cands, d2).contains(x));
    } else {
        lemma_fuzzy_counts(query, cands.drop_last(), d1, d2, x);
    }
}

/// The matches of a sorted list come in order of distance: those within a
/// bound, then those beyond it.
proof fn lemma_sorted_split(s: Seq<(Seq<char>, nat)>, d: nat) -> (k: int)
    requires
        matches_sorted(s),
    ensures
        0 <= k <= s.len(),
        forall|j: int| 0 <= j < k ==> (#[trigger] s[j]).1 <= d,
        forall|j: int| k <= j < s.len() ==> (#[trigger] s[j]).1 > d,
    decreases s.len(),
{
    if s.len() == 0 {
        0
    } else {
        let n = s.len() as int;
        let s0 = s.drop_last();
        assert(matches_sorted(s0)) by {
            assert forall|i: int, j: int| 0 <= i < j < s0.len() implies !match_before(#[trigger] s0[j], #[trigger] s0[i]) by {
                assert(s0[i] == s[i] && s0[j] == s[j]);
            }
        }
        let k0 = lemma_sorted_split(s0, d);
        if s[n - 1].1 <= d {
            assert forall|j: int| 0 <= j < n implies (#[trigger] s[j]).1 <= d by {
                if j < n - 1 {
                    assert(!match_before(s[n - 1], s[j]));
                }
            }
            n
        } else {
            assert forall|j: int| 0 <= j < k0 implies (#[trigger] s[j]).1 <= d by {
                assert(s0[j] == s[j]);
            }
            assert forall|j: int| k0 <= j < n implies (#[trigger] s[j]).1 > d by {
                if j < n - 1 {
                    assert(s0[j] == s[j]);
                }
            }
            k0
        }
    }
}

/// Fuzzy matching within a smaller bound gives the beginning of what a
/// larger bound gives: the same matches in the same order, and every match
/// after them lies beyond the smaller bound.
pub proof fn law_fuzzy_bound_prefix(
    query: Seq<char>,
    cands: Seq<Seq<char>>,
    d1: nat,
    d2: nat,
    s1: Seq<(Seq<char>, nat)>,
    s2: Seq<(Seq<char>, nat)>,
)
    requires
        d1 <= d2,
        matches_sorted(s1),
        s1.to_multiset() == fuzzy_matches(query, cands, d1).to_multiset(),
        matches_sorted(s2),
        s2.to_multiset() == fuzzy_matches(query, cands, d2).to_multiset(),
    ensures
        s1.len() <= s2.len(),
        s1 == s2.take(s1.len() as int),
        forall|j: int| s1.len() <= j < s2.len() ==> (#[trigger] s2[j]).1 > d1,
{
    broadcast use vstd::seq_lib::group_to_multiset_ensures;
    broadcast use vstd::multiset::group_multiset_axioms;

    let k = lemma_sorted_split(s2, d1);
    let head = s2.take(k);
    let tail = s2.skip(k);
    assert(s2 =~= head + tail);
    vstd::seq_lib::lemma_multiset_commutative(head, tail);
    assert(matches_sorted(head)) by {
        assert forall|i: int, j: int| 0 <= i < j < head.len() implies !match_before(#[trigger] head[j], #[trigger] head[i]) by {
            assert(head[i] == s2[i] && head[j] == s2[j]);
        }
    }
    assert(head.to_multiset() =~= s1.to_multiset()) by {
        assert forall|x: (Seq<char>, nat)| #[trigger] head.to_multiset().count(x) == s1.to_multiset().count(x) by {
            lemma_fuzzy_counts(query, cands, d1, d2, x);
            if x.1 <= d1 {
                if tail.contains(x) {
                    let j = choose|j: int| 0 <= j < tail.len() && tail[j] == x;
                    assert(s2[k + j] == x);
                }
            } else {
                if head.contains(x) {
                    let j = choose|j: int| 0 <= j < head.len() && head[j] == x;
                    assert(s2[j] == x);
                }
            }
        }
    }
    law_sorted_matches_unique(head, s1);
}

} // verus!
