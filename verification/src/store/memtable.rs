//! The in-memory table: the latest value of each key written since the
//! last flush, kept sorted by key.

use vstd::prelude::*;
use crate::order::{compare_bytes, lemma_lex_irreflexive, lemma_lex_total, lemma_lex_transitive, lex_lt, Cmp};
use crate::store::sstable::{entry_views, opt_view, EntryView};
use crate::store::bytes::read_u32;
use crate::store::wal::{decode_log, law_log_roundtrip, log_bytes, op_fits, parse_log, parse_log_from, LogOp, OpView};
use crate::store::StoreError;

verus! {

/// Keys strictly increase along `d`.
pub open spec fn keys_sorted(d: Seq<EntryView>) -> bool {
    forall|i: int, j: int| 0 <= i < j < d.len() ==> lex_lt(#[trigger] d[i].0, #[trigger] d[j].0)
}

/// The map that a sequence of entries stands for; a later entry for a key
/// overrides an earlier one.
pub open spec fn entries_map(d: Seq<EntryView>) -> Map<Seq<u8>, Option<Seq<u8>>>
    decreases d.len(),
{
    if d.len() == 0 {
        Map::empty()
    } else {
        entries_map(d.drop_last()).insert(d.last().0, d.last().1)
    }
}

pub proof fn lemma_entries_map_dom(d: Seq<EntryView>)
    ensures
        forall|k: Seq<u8>|
            entries_map(d).contains_key(k) <==> exists|i: int| 0 <= i < d.len() && d[i].0 == k,
    decreases d.len(),
{
    if d.len() > 0 {
        let p = d.drop_last();
        lemma_entries_map_dom(p);
        assert(entries_map(d) == entries_map(p).insert(d.last().0, d.last().1));
        assert forall|k: Seq<u8>| entries_map(d).contains_key(k) <==> exists|i: int|
            0 <= i < d.len() && d[i].0 == k by {
            if k == d.last().0 {
                assert(d[d.len() - 1].0 == k);
            }
            if entries_map(d).contains_key(k) && k != d.last().0 {
                assert(entries_map(p).contains_key(k));
                let i = choose|i: int| 0 <= i < p.len() && p[i].0 == k;
                assert(d[i].0 == k);
            }
            if exists|i: int| 0 <= i < d.len() && d[i].0 == k {
                let i = choose|i: int| 0 <= i < d.len() && d[i].0 == k;
                if i < d.len() - 1 {
                    assert(p[i].0 == k);
                }
            }
        }
    }
}

pub proof fn lemma_entries_map(d: Seq<EntryView>)
    requires
        keys_sorted(d),
    ensures
        forall|i: int|
            0 <= i < d.len() ==> #[trigger] entries_map(d).contains_key(d[i].0) && entries_map(
                d,
            )[d[i].0] == d[i].1,
        forall|k: Seq<u8>|
            entries_map(d).contains_key(k) <==> exists|i: int| 0 <= i < d.len() && d[i].0 == k,
    decreases d.len(),
{
    lemma_entries_map_dom(d);
    if d.len() > 0 {
        let p = d.drop_last();
        assert(keys_sorted(p)) by {
            assert forall|i: int, j: int| 0 <= i < j < p.len() implies lex_lt(
                #[trigger] p[i].0,
                #[trigger] p[j].0,
            ) by {
                assert(p[i] == d[i] && p[j] == d[j]);
            }
        }
        lemma_entries_map(p);
        assert(entries_map(d) == entries_map(p).insert(d.last().0, d.last().1));
        assert forall|n: int| 0 <= n < d.len() implies #[trigger] entries_map(d).contains_key(
            d[n].0,
        ) && entries_map(d)[d[n].0] == d[n].1 by {
            if n < d.len() - 1 {
                assert(p[n] == d[n]);
                assert(lex_lt(d[n].0, d[d.len() - 1].0));
                lemma_lex_irreflexive(d[n].0);
            }
        }
    }
}

/// The in-memory table.
pub struct MemTable {
    /// The entries, sorted by key; `None` marks a deleted key.
    pub entries: Vec<(Vec<u8>, Option<Vec<u8>>)>,
    /// Bytes of keys and values written since the last reset.
    pub size_bytes: usize,
}

impl MemTable {
    pub open spec fn wf(&self) -> bool {
        keys_sorted(entry_views(self.entries@))
    }

    /// The key -> value map the table stands for; `None` values are deletions.
    pub open spec fn view_map(&self) -> Map<Seq<u8>, Option<Seq<u8>>> {
        entries_map(entry_views(self.entries@))
    }

    pub fn new() -> (m: Self)
        ensures
            m.wf(),
            m.view_map() == Map::<Seq<u8>, Option<Seq<u8>>>::empty(),
            m.size_bytes == 0,
    {
        let m = MemTable { entries: Vec::new(), size_bytes: 0 };
        assert(m.view_map() =~= Map::<Seq<u8>, Option<Seq<u8>>>::empty());
        m
    }

    /// Where `key` is or would go among the sorted entries, and whether it is there.
    fn position(&self, key: &[u8]) -> (res: (usize, bool))
        requires
            self.wf(),
        ensures
            res.0 <= self.entries@.len(),
            forall|i: int| 0 <= i < res.0 ==> lex_lt(#[trigger] entry_views(self.entries@)[i].0, key@),
            forall|i: int|
                res.0 <= i < self.entries@.len() ==> !lex_lt(
                    #[trigger] entry_views(self.entries@)[i].0,
                    key@,
                ),
            res.1 == (res.0 < self.entries@.len() && entry_views(self.entries@)[res.0 as int].0
                == key@),
    {
        let ghost d = entry_views(self.entries@);
        let mut lo: usize = 0;
        let mut hi: usize = self.entries.len();
        while lo < hi
            invariant
                lo <= hi <= self.entries@.len(),
                d == entry_views(self.entries@),
                keys_sorted(d),
                forall|i: int| 0 <= i < lo ==> lex_lt(#[trigger] d[i].0, key@),
                forall|i: int| hi <= i < d.len() ==> !lex_lt(#[trigger] d[i].0, key@),
            decreases hi - lo,
        {
            let mid = lo + (hi - lo) / 2;
            assert(d[mid as int].0 == self.entries@[mid as int].0@);
            match compare_bytes(self.entries[mid].0.as_slice(), key) {
                Cmp::Less => {
                    assert forall|i: int| 0 <= i < mid + 1 implies lex_lt(#[trigger] d[i].0, key@) by {
                        if i < mid {
                            lemma_lex_transitive(d[i].0, d[mid as int].0, key@);
                        }
                    }
                    lo = mid + 1;
                },
                _ => {
                    assert forall|i: int| mid <= i < d.len() implies !lex_lt(#[trigger] d[i].0, key@) by {
                        crate::order::lemma_lex_asymmetric(d[mid as int].0, key@);
                        if i > mid {
                            if lex_lt(d[i].0, key@) {
                                lemma_lex_transitive(d[mid as int].0, d[i].0, key@);
                                lemma_lex_irreflexive(key@);
                                if d[mid as int].0 == key@ {
                                    crate::order::lemma_lex_asymmetric(d[i].0, key@);
                                }
                            }
                        }
                        lemma_lex_irreflexive(key@);
                    }
                    hi = mid;
                },
            }
        }
        if lo < self.entries.len() {
            assert(d[lo as int].0 == self.entries@[lo as int].0@);
            let c = compare_bytes(self.entries[lo].0.as_slice(), key);
            (lo, matches!(c, Cmp::Equal))
        } else {
            (lo, false)
        }
    }

    /// Set `key` to `val` (`None` deletes it).
    pub(crate) fn insert(&mut self, key: Vec<u8>, val: Option<Vec<u8>>)
        requires
            old(self).wf(),
        ensures
            final(self).wf(),
            final(self).view_map() == old(self).view_map().insert(key@, opt_view(val)),
            final(self).size_bytes == old(self).size_bytes,
    {
        let ghost d = entry_views(self.entries@);
        let ghost e: EntryView = (key@, opt_view(val));
        proof {
            lemma_entries_map(d);
        }
        let (p, found) = self.position(key.as_slice());
        if found {
            self.entries[p].1 = val;
            let ghost d2 = entry_views(self.entries@);
            assert(d2 =~= d.update(p as int, e));
            proof {
                assert(keys_sorted(d2)) by {
                    assert forall|i: int, j: int| 0 <= i < j < d2.len() implies lex_lt(
                        #[trigger] d2[i].0,
                        #[trigger] d2[j].0,
                    ) by {
                        assert(d2[i].0 == d[i].0 && d2[j].0 == d[j].0);
                    }
                }
                lemma_entries_map(d2);
                assert(entries_map(d2) =~= entries_map(d).insert(key@, opt_view(val))) by {
                    assert forall|k: Seq<u8>| entries_map(d2).contains_key(k) <==> entries_map(
                        d,
                    ).insert(key@, opt_view(val)).contains_key(k) by {
                        if entries_map(d2).contains_key(k) {
                            let i = choose|i: int| 0 <= i < d2.len() && d2[i].0 == k;
                            assert(d[i].0 == k);
                        }
                        if entries_map(d).contains_key(k) {
                            let i = choose|i: int| 0 <= i < d.len() && d[i].0 == k;
                            assert(d2[i].0 == k);
                        }
                        if k == key@ {
                            assert(d2[p as int].0 == k);
                        }
                    }
                    assert forall|k: Seq<u8>| entries_map(d2).contains_key(k) implies entries_map(
                        d2,
                    )[k] == entries_map(d).insert(key@, opt_view(val))[k] by {
                        let i = choose|i: int| 0 <= i < d2.len() && d2[i].0 == k;
                        if i != p {
                            assert(d2[i] == d[i]);
                        }
                    }
                }
            }
        } else {
            self.entries.insert(p, (key, val));
            let ghost d2 = entry_views(self.entries@);
            assert(d2 =~= d.insert(p as int, e));
            proof {
                lemma_lex_total(d[p as int].0, key@);
                assert(keys_sorted(d2)) by {
                    assert forall|i: int, j: int| 0 <= i < j < d2.len() implies lex_lt(
                        #[trigger] d2[i].0,
                        #[trigger] d2[j].0,
                    ) by {
                        if j < p {
                            assert(d2[i] == d[i] && d2[j] == d[j]);
                        } else if j == p {
                            assert(d2[i] == d[i]);
                        } else if i == p {
                            assert(d2[j] == d[j - 1]);
                            lemma_lex_total(d[j - 1].0, key@);
                            if j - 1 > p {
                                lemma_lex_total(d[p as int].0, key@);
                                if lex_lt(key@, d[p as int].0) {
                                    lemma_lex_transitive(key@, d[p as int].0, d[j - 1].0);
                                }
                            }
                        } else if i < p {
                            assert(d2[i] == d[i] && d2[j] == d[j - 1]);
                            assert(lex_lt(d[i].0, key@));
                            lemma_lex_total(d[p as int].0, key@);
                            assert(lex_lt(key@, d[p as int].0));
                            if j - 1 > p {
                                lemma_lex_transitive(key@, d[p as int].0, d[j - 1].0);
                            }
                            lemma_lex_transitive(d[i].0, key@, d[j - 1].0);
                        } else {
                            assert(d2[i] == d[i - 1] && d2[j] == d[j - 1]);
                        }
                    }
                }
                lemma_entries_map(d2);
                assert(entries_map(d2) =~= entries_map(d).insert(key@, opt_view(val))) by {
                    assert forall|k: Seq<u8>| entries_map(d2).contains_key(k) <==> entries_map(
                        d,
                    ).insert(key@, opt_view(val)).contains_key(k) by {
                        if entries_map(d2).contains_key(k) {
                            let i = choose|i: int| 0 <= i < d2.len() && d2[i].0 == k;
                            if i < p {
                                assert(d[i].0 == k);
                            } else if i > p {
                                assert(d[i - 1].0 == k);
                            }
                        }
                        if entries_map(d).contains_key(k) {
                            let i = choose|i: int| 0 <= i < d.len() && d[i].0 == k;
                            if i < p {
                                assert(d2[i].0 == k);
                            } else {
                                assert(d2[i + 1].0 == k);
                            }
                        }
                        if k == key@ {
                            assert(d2[p as int].0 == k);
                        }
                    }
                    assert forall|k: Seq<u8>| entries_map(d2).contains_key(k) implies entries_map(
                        d2,
                    )[k] == entries_map(d).insert(key@, opt_view(val))[k] by {
                        let i = choose|i: int| 0 <= i < d2.len() && d2[i].0 == k;
                        assert(d2[p as int].0 == key@);
                        if i < p {
                            assert(d2[i] == d[i]);
                            assert(lex_lt(d2[i].0, d2[p as int].0));
                            lemma_lex_irreflexive(key@);
                            assert(k != key@);
                        } else if i > p {
                            assert(d2[i] == d[i - 1]);
                            assert(lex_lt(d2[p as int].0, d2[i].0));
                            lemma_lex_irreflexive(key@);
                            assert(k != key@);
                        }
                    }
                }
            }
        }
    }
}


/// The map after one logged operation.
pub open spec fn apply_op(m: Map<Seq<u8>, Option<Seq<u8>>>, op: OpView) -> Map<Seq<u8>, Option<Seq<u8>>> {
    match op {
        OpView::Put(k, v) => m.insert(k, Some(v)),
        OpView::Delete(k) => m.insert(k, None),
    }
}

/// The map that replaying `ops` in order onto an empty table gives.
pub open spec fn replay(ops: Seq<OpView>) -> Map<Seq<u8>, Option<Seq<u8>>>
    decreases ops.len(),
{
    if ops.len() == 0 {
        Map::empty()
    } else {
        apply_op(replay(ops.drop_last()), ops.last())
    }
}

/// The bytes an operation adds to the table's size count.
pub open spec fn op_size(op: OpView) -> nat {
    match op {
        OpView::Put(k, v) => k.len() + v.len(),
        OpView::Delete(k) => k.len(),
    }
}

pub open spec fn ops_size(ops: Seq<OpView>) -> nat
    decreases ops.len(),
{
    if ops.len() == 0 {
        0
    } else {
        op_size(ops[0]) + ops_size(ops.drop_first())
    }
}

proof fn lemma_parsed_size(b: Seq<u8>, pos: nat)
    ensures
        parse_log_from(b, pos) matches Ok(ops) ==> ops_size(ops) + pos <= b.len() || pos > b.len(),
    decreases b.len() - pos,
{
    if pos < b.len() {
        if b[pos as int] == 1 && b.len() >= pos + 9 {
            let kl = read_u32(b, pos + 1int) as nat;
            let vl = read_u32(b, pos + 5int) as nat;
            let next = pos + 9 + kl + vl;
            if next <= b.len() {
                lemma_parsed_size(b, next);
                if let Ok(rest) = parse_log_from(b, next) {
                    let op = OpView::Put(b.subrange(pos + 9int, pos + 9int + kl), b.subrange(pos + 9int + kl, next as int));
                    assert((seq![op] + rest).drop_first() =~= rest);
                }
            }
        } else if b[pos as int] == 2 && b.len() >= pos + 5 {
            let kl = read_u32(b, pos + 1int) as nat;
            let next = pos + 5 + kl;
            if next <= b.len() {
                lemma_parsed_size(b, next);
                if let Ok(rest) = parse_log_from(b, next) {
                    let op = OpView::Delete(b.subrange(pos + 5int, next as int));
                    assert((seq![op] + rest).drop_first() =~= rest);
                }
            }
        }
    }
}

impl MemTable {
    /// Write `val` under `key`.
    pub fn put(&mut self, key: Vec<u8>, val: Vec<u8>)
        requires
            old(self).wf(),
            old(self).size_bytes + key@.len() + val@.len() <= usize::MAX,
        ensures
            final(self).wf(),
            final(self).view_map() == old(self).view_map().insert(key@, Some(val@)),
            final(self).size_bytes == old(self).size_bytes + key@.len() + val@.len(),
    {
        self.size_bytes = self.size_bytes + key.len() + val.len();
        self.insert(key, Some(val));
    }

    /// Mark `key` deleted (a tombstone).
    pub fn delete(&mut self, key: Vec<u8>)
        requires
            old(self).wf(),
            old(self).size_bytes + key@.len() <= usize::MAX,
        ensures
            final(self).wf(),
            final(self).view_map() == old(self).view_map().insert(key@, None),
            final(self).size_bytes == old(self).size_bytes + key@.len(),
    {
        self.size_bytes = self.size_bytes + key.len();
        self.insert(key, None);
    }

    /// What the table holds for `key`: `Some(None)` for a deleted key.
    pub fn get(&self, key: &[u8]) -> (res: Option<&Option<Vec<u8>>>)
        requires
            self.wf(),
        ensures
            match res {
                Some(r) => self.view_map().contains_key(key@) && self.view_map()[key@] == opt_view(*r),
                None => !self.view_map().contains_key(key@),
            },
    {
        proof {
            lemma_entries_map(entry_views(self.entries@));
        }
        let (p, found) = self.position(key);
        if found {
            assert(entry_views(self.entries@)[p as int] == (self.entries@[p as int].0@, opt_view(self.entries@[p as int].1)));
            Some(&self.entries[p].1)
        } else {
            proof {
                if self.view_map().contains_key(key@) {
                    let d = entry_views(self.entries@);
                    let i = choose|i: int| 0 <= i < d.len() && d[i].0 == key@;
                    lemma_lex_irreflexive(key@);
                    if i < p {
                        assert(lex_lt(d[i].0, key@));
                    } else {
                        assert(d[i].0 == key@);
                        if i > p {
                            assert(lex_lt(d[p as int].0, d[i].0));
                            assert(!lex_lt(d[p as int].0, key@));
                        }
                    }
                }
            }
            None
        }
    }

    /// Whether the table holds no entry.
    pub fn is_empty(&self) -> (b: bool)
        requires
            self.wf(),
        ensures
            b == (self.view_map() == Map::<Seq<u8>, Option<Seq<u8>>>::empty()),
    {
        proof {
            lemma_entries_map(entry_views(self.entries@));
            if self.entries@.len() > 0 {
                assert(self.view_map().contains_key(entry_views(self.entries@)[0].0));
            } else {
                assert(self.view_map() =~= Map::<Seq<u8>, Option<Seq<u8>>>::empty());
            }
        }
        self.entries.len() == 0
    }

    /// Empty the table and return its entries, sorted by key.
    pub fn clear_and_reset(&mut self) -> (snapshot: Vec<(Vec<u8>, Option<Vec<u8>>)>)
        requires
            old(self).wf(),
        ensures
            final(self).wf(),
            final(self).view_map() == Map::<Seq<u8>, Option<Seq<u8>>>::empty(),
            final(self).size_bytes == 0,
            keys_sorted(entry_views(snapshot@)),
            entries_map(entry_views(snapshot@)) == old(self).view_map(),
    {
        let mut snapshot: Vec<(Vec<u8>, Option<Vec<u8>>)> = Vec::new();
        std::mem::swap(&mut snapshot, &mut self.entries);
        self.size_bytes = 0;
        assert(self.view_map() =~= Map::<Seq<u8>, Option<Seq<u8>>>::empty());
        snapshot
    }

    /// Rebuild the table from the bytes of its write-ahead log.
    pub fn open(log: &[u8]) -> (res: Result<MemTable, StoreError>)
        ensures
            match res {
                Ok(m) => m.wf() && exists|ops: Seq<OpView>|
                    parse_log(log@) == Ok::<Seq<OpView>, StoreError>(ops)
                        && m.view_map() == replay(ops) && m.size_bytes == ops_size(ops),
                Err(e) => parse_log(log@) == Err::<Seq<OpView>, StoreError>(e),
            },
    {
        let ops = match decode_log(log) {
            Ok(ops) => ops,
            Err(e) => return Err(e),
        };
        let ghost ov = crate::store::wal::op_views(ops@);
        proof {
            lemma_parsed_size(log@, 0);
        }
        let total = log.len();
        let mut m = MemTable::new();
        let mut k: usize = 0;
        assert(ov.take(0) =~= Seq::<OpView>::empty());
        assert(ov.skip(0) =~= ov);
        while k < ops.len()
            invariant
                k <= ops@.len(),
                ov == crate::store::wal::op_views(ops@),
                ops_size(ov) <= total,
                total <= usize::MAX,
                m.wf(),
                m.view_map() == replay(ov.take(k as int)),
                m.size_bytes + ops_size(ov.skip(k as int)) == ops_size(ov),
            decreases ops.len() - k,
        {
            assert(ov.take(k + 1).drop_last() =~= ov.take(k as int));
            assert(ov.skip(k as int).drop_first() =~= ov.skip(k + 1));
            assert(ov.skip(k as int)[0] == ov[k as int]);
            assert(ov[k as int] == ops@[k as int]@);
            match &ops[k] {
                LogOp::Put(key, val) => {
                    m.put(key.clone(), val.clone());
                },
                LogOp::Delete(key) => {
                    m.delete(key.clone());
                },
            }
            k = k + 1;
        }
        assert(ov.take(ops@.len() as int) =~= ov);
        assert(ov.skip(ops@.len() as int) =~= Seq::<OpView>::empty());
        Ok(m)
    }
}

/// A table rebuilt from the log of `ops` (as `open` rebuilds it) holds what
/// replaying `ops` in order gives, and counts their bytes, when every key
/// and value length fits the log's length fields.
pub proof fn law_recovery(ops: Seq<OpView>, m: MemTable)
    requires
        forall|i: int| 0 <= i < ops.len() ==> op_fits(#[trigger] ops[i]),
        exists|parsed: Seq<OpView>|
            parse_log(log_bytes(ops)) == Ok::<Seq<OpView>, StoreError>(parsed) && m.view_map() == replay(parsed)
                && m.size_bytes == ops_size(parsed),
    ensures
        m.view_map() == replay(ops),
        m.size_bytes == ops_size(ops),
{
    law_log_roundtrip(ops);
}

} // verus!
