//! The store's state and decisions: where a read is answered from, when the
//! in-memory table is written out, and what compaction keeps. The files
//! themselves are read and written by the caller.

use vstd::prelude::*;
use crate::order::lex_lt;
use crate::store::memtable::{entries_map, keys_sorted, MemTable};
use crate::store::sstable::{
    entries_fit, entry_views, footer_in_range, index_entries, index_keys, index_views,
    law_table_roundtrip, opt_view, table_bytes, table_index, EntryView, SSTable,
};
use crate::store::memtable::{ops_size, replay};
use crate::store::wal::{law_log_roundtrip, log_bytes, op_fits, parse_log, OpView};
use crate::store::StoreError;

verus! {

/// Size of the in-memory table at which it is written out.
pub const FLUSH_THRESHOLD_BYTES: usize = 4 * 1024 * 1024;

/// The index of the table that compaction writes in place of all tables.
pub const COMPACTED_TABLE_INDEX: u32 = 1;

/// What the tables, newest first, hold for `key`: the first table whose
/// index leads to the key answers; a failed read fails the lookup.
pub open spec fn tables_get(ts: Seq<(u32, SSTable)>, key: Seq<u8>) -> Result<Option<Seq<u8>>, StoreError>
    decreases ts.len(),
{
    if ts.len() == 0 {
        Ok(None)
    } else {
        match ts[0].1.lookup(key) {
            Err(e) => Err(e),
            Ok(Some(vo)) => Ok(vo),
            Ok(None) => tables_get(ts.drop_first(), key),
        }
    }
}

/// What the store holds for `key`: the in-memory table first, then the tables.
pub open spec fn store_get(
    mem: Map<Seq<u8>, Option<Seq<u8>>>,
    ts: Seq<(u32, SSTable)>,
    key: Seq<u8>,
) -> Result<Option<Seq<u8>>, StoreError> {
    if mem.contains_key(key) {
        Ok(mem[key])
    } else {
        tables_get(ts, key)
    }
}

/// The index a newly written table gets: one more than the largest in use.
pub open spec fn next_index(ts: Seq<(u32, SSTable)>) -> int
    decreases ts.len(),
{
    if ts.len() == 0 {
        1
    } else {
        let rest = next_index(ts.drop_last());
        if ts.last().0 + 1 > rest {
            ts.last().0 + 1
        } else {
            rest
        }
    }
}

/// `p` comes before `q` in the store's table order: larger table index
/// first, and among equal indices the later one found first.
pub open spec fn table_before(idxs: Seq<u32>, p: int, q: int) -> bool {
    idxs[p] > idxs[q] || (idxs[p] == idxs[q] && p > q)
}

/// `perm` lists the positions of `idxs` in the store's table order.
pub open spec fn is_table_order(idxs: Seq<u32>, perm: Seq<usize>) -> bool {
    &&& perm.len() == idxs.len()
    &&& forall|a: int| 0 <= a < perm.len() ==> #[trigger] perm[a] < idxs.len()
    &&& forall|a: int, b: int|
        0 <= a < b < perm.len() ==> table_before(idxs, #[trigger] perm[a] as int, #[trigger] perm[b] as int)
}

/// Order table positions newest first: by table index, larger first, and
/// among equal indices the later-found first.
pub fn table_order(idxs: &Vec<u32>) -> (perm: Vec<usize>)
    ensures
        is_table_order(idxs@, perm@),
{
    let ghost ix = idxs@;
    let n = idxs.len();
    let mut perm: Vec<usize> = Vec::new();
    let mut k: usize = n;
    while k > 0
        invariant
            k <= n,
            n == ix.len(),
            ix == idxs@,
            perm@.len() == n - k,
            forall|a: int| 0 <= a < perm@.len() ==> k <= #[trigger] perm@[a] < n,
            forall|a: int, b: int|
                0 <= a < b < perm@.len() ==> table_before(ix, #[trigger] perm@[a] as int, #[trigger] perm@[b] as int),
        decreases k,
    {
        k = k - 1;
        let mut j: usize = 0;
        while j < perm.len() && idxs[perm[j]] >= idxs[k]
            invariant
                j <= perm@.len(),
                k < n,
                n == ix.len(),
                ix == idxs@,
                forall|a: int| 0 <= a < perm@.len() ==> k < #[trigger] perm@[a] < n,
                forall|a: int| 0 <= a < j ==> ix[#[trigger] perm@[a] as int] >= ix[k as int],
            decreases perm.len() - j,
        {
            j = j + 1;
        }
        let ghost old_perm = perm@;
        perm.insert(j, k);
        proof {
            assert forall|a: int, b: int| 0 <= a < b < perm@.len() implies table_before(
                ix,
                #[trigger] perm@[a] as int,
                #[trigger] perm@[b] as int,
            ) by {
                if b < j {
                    assert(perm@[a] == old_perm[a] && perm@[b] == old_perm[b]);
                } else if b == j {
                    assert(perm@[a] == old_perm[a]);
                } else if a == j {
                    assert(perm@[b] == old_perm[b - 1]);
                    if b - 1 > j {
                        assert(table_before(ix, old_perm[j as int] as int, old_perm[b - 1] as int));
                    }
                } else if a < j {
                    assert(perm@[a] == old_perm[a] && perm@[b] == old_perm[b - 1]);
                } else {
                    assert(perm@[a] == old_perm[a - 1] && perm@[b] == old_perm[b - 1]);
                }
            }
            assert forall|a: int| 0 <= a < perm@.len() implies k <= #[trigger] perm@[a] < n by {
                if a < j {
                    assert(perm@[a] == old_perm[a]);
                } else if a > j {
                    assert(perm@[a] == old_perm[a - 1]);
                }
            }
        }
    }
    perm
}


/// The table indices of (index, contents) pairs.
pub open spec fn table_indices(ts: Seq<(u32, Vec<u8>)>) -> Seq<u32> {
    ts.map_values(|t: (u32, Vec<u8>)| t.0)
}

/// The store: the in-memory table and the tables on disk, newest first.
pub struct SynapseStore {
    memtable: MemTable,
    sstables: Vec<(u32, SSTable)>,
}

/// `res` is what opening tables `tables` (positions in the order `perm`)
/// with write-ahead log `log` gives: each table parsed, newest first, and the
/// log replayed; or the error of the oldest table that fails to parse, or
/// else of the log.
pub open spec fn opened_as(
    tables: Seq<(u32, Vec<u8>)>,
    log: Seq<u8>,
    perm: Seq<usize>,
    res: Result<SynapseStore, StoreError>,
) -> bool {
    match res {
        Ok(s) => {
            &&& s.wf()
            &&& s.tables().len() == perm.len()
            &&& forall|a: int| 0 <= a < perm.len() ==> {
                let t = tables[perm[a] as int];
                &&& (#[trigger] s.tables()[a]).0 == t.0
                &&& s.tables()[a].1.contents@ == t.1@
                &&& table_index(t.1@) == Ok::<Seq<(Seq<u8>, u64)>, StoreError>(
                    index_views(s.tables()[a].1.index@),
                )
            }
            &&& exists|ops: Seq<OpView>| {
                &&& parse_log(log) == Ok::<Seq<OpView>, StoreError>(ops)
                &&& s.mem().view_map() == replay(ops)
                &&& s.mem().size_bytes == ops_size(ops)
            }
        },
        Err(e) => {
            ||| exists|a: int| {
                &&& 0 <= a < perm.len()
                &&& table_index(tables[perm[a] as int].1@) == Err::<Seq<(Seq<u8>, u64)>, StoreError>(e)
                &&& forall|b: int| a < b < perm.len() ==> (#[trigger] table_index(tables[perm[b] as int].1@)) is Ok
            }
            ||| {
                &&& forall|b: int| 0 <= b < perm.len() ==> (#[trigger] table_index(tables[perm[b] as int].1@)) is Ok
                &&& parse_log(log) == Err::<Seq<OpView>, StoreError>(e)
            }
        },
    }
}

impl SynapseStore {
    /// The in-memory table stays sorted by key.
    #[verifier::type_invariant]
    spec fn sorted_memtable(self) -> bool {
        self.memtable.wf()
    }

    pub closed spec fn mem(&self) -> MemTable {
        self.memtable
    }

    pub closed spec fn tables(&self) -> Seq<(u32, SSTable)> {
        self.sstables@
    }

    pub open spec fn wf(&self) -> bool {
        self.mem().wf()
    }

    /// What the store holds for `key`.
    pub open spec fn lookup(&self, key: Seq<u8>) -> Result<Option<Seq<u8>>, StoreError> {
        store_get(self.mem().view_map(), self.tables(), key)
    }

    /// Assemble a store from its table files, given as (index, contents),
    /// and the bytes of its write-ahead log. Tables are parsed oldest first
    /// and kept newest first; the first table that fails to parse, then the
    /// log, decides the error.
    pub fn open(tables: Vec<(u32, Vec<u8>)>, log: &[u8]) -> (res: Result<Self, StoreError>)
        requires
            forall|i: int| 0 <= i < tables@.len() ==> footer_in_range(#[trigger] tables@[i].1@),
        ensures
            exists|perm: Seq<usize>|
                is_table_order(table_indices(tables@), perm) && #[trigger] opened_as(
                    tables@,
                    log@,
                    perm,
                    res,
                ),
    {
        let ghost orig = tables@;
        let mut tables = tables;
        let mut idxs: Vec<u32> = Vec::new();
        let mut i: usize = 0;
        while i < tables.len()
            invariant
                i <= tables@.len(),
                tables@ == orig,
                idxs@ =~= orig.take(i as int).map_values(|t: (u32, Vec<u8>)| t.0),
            decreases tables.len() - i,
        {
            idxs.push(tables[i].0);
            i = i + 1;
        }
        assert(orig.take(orig.len() as int) =~= orig);
        let ghost ix = table_indices(orig);
        assert(idxs@ =~= ix);
        let perm = table_order(&idxs);
        proof {
            lemma_table_order_distinct(ix, perm@);
        }
        let n = perm.len();
        // Parse oldest first: from the end of `perm` back to its start.
        let mut ascending: Vec<(u32, SSTable)> = Vec::new();
        let mut a: usize = n;
        let mut failure: Option<StoreError> = None;
        while a > 0 && failure.is_none()
            invariant
                failure matches Some(e) ==> opened_as(orig, log@, perm@, Err(e)),
                a <= n,
                n == perm@.len(),
                n == orig.len(),
                is_table_order(ix, perm@),
                ix == table_indices(orig),
                forall|x: int, y: int| 0 <= x < y < n ==> perm@[x] != perm@[y],
                forall|i: int| 0 <= i < orig.len() ==> footer_in_range(#[trigger] orig[i].1@),
                tables@.len() == orig.len(),
                forall|b: int| 0 <= b < a ==> #[trigger] tables@[perm@[b] as int] == orig[perm@[b] as int],
                failure is None ==> ascending@.len() == n - a,
                failure is None ==> forall|b: int| a <= b < n ==> {
                    let t = orig[perm@[b] as int];
                    let got = #[trigger] ascending@[n - 1 - b];
                    &&& got.0 == t.0
                    &&& got.1.contents@ == t.1@
                    &&& table_index(t.1@) == Ok::<Seq<(Seq<u8>, u64)>, StoreError>(index_views(got.1.index@))
                },
            decreases a + (if failure is None { 1int } else { 0int }),
        {
            a = a - 1;
            let pos = perm[a];
            let mut contents: Vec<u8> = Vec::new();
            std::mem::swap(&mut contents, &mut tables[pos].1);
            assert(contents@ == orig[pos as int].1@);
            let idx = tables[pos].0;
            match SSTable::open(contents) {
                Ok(t) => {
                    ascending.push((idx, t));
                },
                Err(e) => {
                    assert(opened_as(orig, log@, perm@, Err(e))) by {
                        assert forall|b: int| a < b < perm@.len() implies (#[trigger] table_index(
                            orig[perm@[b] as int].1@,
                        )) is Ok by {
                            assert(ascending@[n - 1 - b] == ascending@[n - 1 - b]);
                        }
                    }
                    failure = Some(e);
                },
            }
            proof {
                assert forall|b: int| 0 <= b < a implies #[trigger] tables@[perm@[b] as int] == orig[perm@[b] as int] by {
                    assert(perm@[b] != perm@[a as int]);
                }
            }
        }
        if let Some(e) = failure {
            return Err(e);
        }
        assert forall|b: int| 0 <= b < perm@.len() implies (#[trigger] table_index(
            orig[perm@[b] as int].1@,
        )) is Ok by {
            assert(ascending@[n - 1 - b] == ascending@[n - 1 - b]);
        }
        let memtable = match MemTable::open(log) {
            Ok(m) => m,
            Err(e) => {
                assert(opened_as(orig, log@, perm@, Err(e)));
                return Err(e);
            },
        };
        let ghost asc0 = ascending@;
        let mut sstables: Vec<(u32, SSTable)> = Vec::new();
        let mut k: usize = n;
        while k > 0
            invariant
                k <= n,
                asc0.len() == n,
                ascending@.len() == n,
                forall|j: int| 0 <= j < k ==> #[trigger] ascending@[j] == asc0[j],
                sstables@.len() == n - k,
                forall|b: int| 0 <= b < n - k ==> #[trigger] sstables@[b] == asc0[n - 1 - b],
            decreases k,
        {
            k = k - 1;
            let mut entry: (u32, SSTable) = (0, SSTable { contents: Vec::new(), index: Vec::new() });
            std::mem::swap(&mut entry, &mut ascending[k]);
            sstables.push(entry);
        }
        let store = SynapseStore { memtable, sstables };
        assert(opened_as(orig, log@, perm@, Ok(store))) by {
            assert forall|a: int| 0 <= a < perm@.len() implies {
                let t = orig[perm@[a] as int];
                &&& (#[trigger] store.tables()[a]).0 == t.0
                &&& store.tables()[a].1.contents@ == t.1@
                &&& table_index(t.1@) == Ok::<Seq<(Seq<u8>, u64)>, StoreError>(
                    index_views(store.tables()[a].1.index@),
                )
            } by {
                assert(store.tables()[a] == asc0[n - 1 - a]);
                assert(n - 1 - (n - 1 - a) == a);
            }
        }
        Ok(store)
    }
}

/// The map after absorbing the entries that table `t` gives for `keys`, in
/// order: an entry read as present (a value or a deletion) overrides.
pub open spec fn absorb_keys(
    m: Map<Seq<u8>, Option<Seq<u8>>>,
    t: SSTable,
    keys: Seq<Seq<u8>>,
) -> Result<Map<Seq<u8>, Option<Seq<u8>>>, StoreError>
    decreases keys.len(),
{
    if keys.len() == 0 {
        Ok(m)
    } else {
        match absorb_keys(m, t, keys.drop_last()) {
            Err(e) => Err(e),
            Ok(m2) => match t.lookup(keys.last()) {
                Err(e) => Err(e),
                Ok(Some(vo)) => Ok(m2.insert(keys.last(), vo)),
                Ok(None) => Ok(m2),
            },
        }
    }
}

/// The merged entries of the tables, newest first in `ts`: the oldest table
/// is absorbed first, so newer entries override older ones.
pub open spec fn absorb_tables(ts: Seq<(u32, SSTable)>) -> Result<Map<Seq<u8>, Option<Seq<u8>>>, StoreError>
    decreases ts.len(),
{
    if ts.len() == 0 {
        Ok(Map::empty())
    } else {
        match absorb_tables(ts.drop_first()) {
            Err(e) => Err(e),
            Ok(m) => absorb_keys(m, ts[0].1, index_keys(index_views(ts[0].1.index@))),
        }
    }
}

/// The entries of `d` that hold a value, in order.
pub open spec fn live_seq(d: Seq<EntryView>) -> Seq<EntryView>
    decreases d.len(),
{
    if d.len() == 0 {
        Seq::empty()
    } else if d.last().1 is Some {
        live_seq(d.drop_last()).push(d.last())
    } else {
        live_seq(d.drop_last())
    }
}

proof fn lemma_live_seq(d: Seq<EntryView>)
    requires
        keys_sorted(d),
    ensures
        keys_sorted(live_seq(d)),
        entries_map(live_seq(d)) == live_entries(entries_map(d)),
        forall|x: int| 0 <= x < live_seq(d).len() ==> exists|y: int| 0 <= y < d.len() && #[trigger] live_seq(d)[x] == d[y],
    decreases d.len(),
{
    if d.len() > 0 {
        let p = d.drop_last();
        assert(keys_sorted(p)) by {
            assert forall|i: int, j: int| 0 <= i < j < p.len() implies lex_lt(#[trigger] p[i].0, #[trigger] p[j].0) by {
                assert(p[i] == d[i] && p[j] == d[j]);
            }
        }
        lemma_live_seq(p);
        let lp = live_seq(p);
        crate::store::memtable::lemma_entries_map_dom(p);
        assert(!entries_map(p).contains_key(d.last().0)) by {
            if entries_map(p).contains_key(d.last().0) {
                let i = choose|i: int| 0 <= i < p.len() && p[i].0 == d.last().0;
                assert(lex_lt(d[i].0, d[d.len() - 1].0));
                crate::order::lemma_lex_irreflexive(d.last().0);
            }
        }
        if d.last().1 is Some {
            let l = lp.push(d.last());
            assert(keys_sorted(l)) by {
                assert forall|i: int, j: int| 0 <= i < j < l.len() implies lex_lt(#[trigger] l[i].0, #[trigger] l[j].0) by {
                    if j < lp.len() {
                        assert(l[i] == lp[i] && l[j] == lp[j]);
                    } else {
                        assert(l[i] == lp[i]);
                        let y = choose|y: int| 0 <= y < p.len() && lp[i] == p[y];
                        assert(lex_lt(d[y].0, d[d.len() - 1].0));
                    }
                }
            }
            assert(l.drop_last() =~= lp);
            assert(entries_map(l) =~= live_entries(entries_map(d)));
            assert forall|x: int| 0 <= x < l.len() implies exists|y: int| 0 <= y < d.len() && #[trigger] l[x] == d[y] by {
                if x < lp.len() {
                    let y = choose|y: int| 0 <= y < p.len() && lp[x] == p[y];
                    assert(l[x] == d[y]);
                } else {
                    assert(l[x] == d[d.len() - 1]);
                }
            }
        } else {
            assert(live_entries(entries_map(d)) =~= live_entries(entries_map(p)));
            assert forall|x: int| 0 <= x < lp.len() implies exists|y: int| 0 <= y < d.len() && #[trigger] lp[x] == d[y] by {
                let y = choose|y: int| 0 <= y < p.len() && lp[x] == p[y];
                assert(lp[x] == d[y]);
            }
        }
    } else {
        assert(live_entries(entries_map(d)) =~= Map::<Seq<u8>, Option<Seq<u8>>>::empty());
    }
}

proof fn lemma_absorb_keys_err(
    m: Map<Seq<u8>, Option<Seq<u8>>>,
    t: SSTable,
    keys: Seq<Seq<u8>>,
    j: int,
    e: StoreError,
)
    requires
        0 <= j <= keys.len(),
        absorb_keys(m, t, keys.take(j)) == Err::<Map<Seq<u8>, Option<Seq<u8>>>, StoreError>(e),
    ensures
        absorb_keys(m, t, keys) == Err::<Map<Seq<u8>, Option<Seq<u8>>>, StoreError>(e),
    decreases keys.len() - j,
{
    if j < keys.len() {
        assert(keys.take(j + 1).drop_last() =~= keys.take(j));
        lemma_absorb_keys_err(m, t, keys, j + 1, e);
    } else {
        assert(keys.take(j) =~= keys);
    }
}

proof fn lemma_absorb_tables_err(ts: Seq<(u32, SSTable)>, k: int, e: StoreError)
    requires
        0 <= k <= ts.len(),
        absorb_tables(ts.skip(k)) == Err::<Map<Seq<u8>, Option<Seq<u8>>>, StoreError>(e),
    ensures
        absorb_tables(ts) == Err::<Map<Seq<u8>, Option<Seq<u8>>>, StoreError>(e),
    decreases k,
{
    if k > 0 {
        assert(ts.skip(k - 1).drop_first() =~= ts.skip(k));
        lemma_absorb_tables_err(ts, k - 1, e);
    } else {
        assert(ts.skip(0) =~= ts);
    }
}

/// The entries of `m` that hold a value: deletions dropped.
pub open spec fn live_entries(m: Map<Seq<u8>, Option<Seq<u8>>>) -> Map<Seq<u8>, Option<Seq<u8>>> {
    Map::new(|k: Seq<u8>| m.contains_key(k) && m[k] is Some, |k: Seq<u8>| m[k])
}

impl SynapseStore {
    /// Read the value for a key: the in-memory table first, then the tables
    /// newest to oldest. A deleted key reads as `None`.
    pub fn get(&self, key: &[u8]) -> (res: Result<Option<Vec<u8>>, StoreError>)
        ensures
            match res {
                Ok(v) => self.lookup(key@) == Ok::<Option<Seq<u8>>, StoreError>(opt_view(v)),
                Err(e) => self.lookup(key@) == Err::<Option<Seq<u8>>, StoreError>(e),
            },
    {
        proof {
            use_type_invariant(self);
        }
        match self.memtable.get(key) {
            Some(vo) => {
                let v = match vo {
                    Some(v) => Some(v.clone()),
                    None => None,
                };
                return Ok(v);
            },
            None => {},
        }
        let ghost ts = self.sstables@;
        let mut i: usize = 0;
        assert(ts.skip(0) =~= ts);
        while i < self.sstables.len()
            invariant
                i <= ts.len(),
                ts == self.sstables@,
                self.wf(),
                !self.mem().view_map().contains_key(key@),
                tables_get(ts, key@) == tables_get(ts.skip(i as int), key@),
            decreases self.sstables.len() - i,
        {
            assert(ts.skip(i as int)[0] == ts[i as int]);
            assert(ts.skip(i as int).drop_first() =~= ts.skip(i + 1));
            match self.sstables[i].1.get(key) {
                Err(e) => return Err(e),
                Ok(Some(vo)) => return Ok(vo),
                Ok(None) => {},
            }
            i = i + 1;
        }
        Ok(None)
    }

    /// Bytes written to the in-memory table since it was last written out.
    pub fn memtable_size(&self) -> (n: usize)
        ensures
            n == self.mem().size_bytes,
    {
        self.memtable.size_bytes
    }

    /// Write a key-value pair to the in-memory table (its log record must be
    /// written first). Returns whether the table is now due to be flushed.
    pub fn put(&mut self, key: &[u8], val: &[u8]) -> (flush_due: bool)
        requires
            old(self).mem().size_bytes + key@.len() + val@.len() <= usize::MAX,
        ensures
            final(self).wf(),
            final(self).mem().view_map() == old(self).mem().view_map().insert(key@, Some(val@)),
            final(self).mem().size_bytes == old(self).mem().size_bytes + key@.len() + val@.len(),
            final(self).tables() == old(self).tables(),
            flush_due == (final(self).mem().size_bytes >= FLUSH_THRESHOLD_BYTES),
    {
        proof {
            use_type_invariant(&*self);
        }
        let mut mem = MemTable::new();
        std::mem::swap(&mut mem, &mut self.memtable);
        mem.put(vstd::slice::slice_to_vec(key), vstd::slice::slice_to_vec(val));
        let due = mem.size_bytes >= FLUSH_THRESHOLD_BYTES;
        self.memtable = mem;
        due
    }

    /// Mark a key deleted in the in-memory table (its log record must be
    /// written first). Returns whether the table is now due to be flushed.
    pub fn delete(&mut self, key: &[u8]) -> (flush_due: bool)
        requires
            old(self).mem().size_bytes + key@.len() <= usize::MAX,
        ensures
            final(self).wf(),
            final(self).mem().view_map() == old(self).mem().view_map().insert(key@, None),
            final(self).mem().size_bytes == old(self).mem().size_bytes + key@.len(),
            final(self).tables() == old(self).tables(),
            flush_due == (final(self).mem().size_bytes >= FLUSH_THRESHOLD_BYTES),
    {
        proof {
            use_type_invariant(&*self);
        }
        let mut mem = MemTable::new();
        std::mem::swap(&mut mem, &mut self.memtable);
        mem.delete(vstd::slice::slice_to_vec(key));
        let due = mem.size_bytes >= FLUSH_THRESHOLD_BYTES;
        self.memtable = mem;
        due
    }

    /// One more than the largest table index in use (1 when there is no table).
    pub fn next_table_index(&self) -> (n: u64)
        ensures
            n == next_index(self.tables()),
    {
        let ghost ts = self.sstables@;
        let mut best: u64 = 1;
        let mut i: usize = 0;
        assert(ts.take(0) =~= Seq::<(u32, SSTable)>::empty());
        while i < self.sstables.len()
            invariant
                i <= ts.len(),
                ts == self.sstables@,
                best == next_index(ts.take(i as int)),
                best <= u32::MAX as u64 + 1,
            decreases self.sstables.len() - i,
        {
            assert(ts.take(i + 1).drop_last() =~= ts.take(i as int));
            let cand = self.sstables[i].0 as u64 + 1;
            if cand > best {
                best = cand;
            }
            i = i + 1;
        }
        assert(ts.take(ts.len() as int) =~= ts);
        best
    }

    /// Empty the in-memory table into the bytes of a new table file: its
    /// index and contents, or `None` when the in-memory table is empty. The
    /// caller writes the file and then installs it.
    pub fn flush(&mut self) -> (res: Option<(u32, Vec<u8>)>)
        requires
            next_index(old(self).tables()) <= u32::MAX,
        ensures
            final(self).wf(),
            final(self).tables() == old(self).tables(),
            match res {
                None => old(self).mem().view_map() == Map::<Seq<u8>, Option<Seq<u8>>>::empty()
                    && final(self).mem() == old(self).mem(),
                Some((idx, bytes)) => {
                    &&& old(self).mem().view_map() != Map::<Seq<u8>, Option<Seq<u8>>>::empty()
                    &&& idx == next_index(old(self).tables())
                    &&& final(self).mem().view_map() == Map::<Seq<u8>, Option<Seq<u8>>>::empty()
                    &&& final(self).mem().size_bytes == 0
                    &&& exists|d: Seq<EntryView>|
                        keys_sorted(d) && entries_map(d) == old(self).mem().view_map() && bytes@
                            == #[trigger] table_bytes(d)
                },
            },
    {
        proof {
            use_type_invariant(&*self);
        }
        if self.memtable.is_empty() {
            return None;
        }
        let mut mem = MemTable::new();
        std::mem::swap(&mut mem, &mut self.memtable);
        let snapshot = mem.clear_and_reset();
        self.memtable = mem;
        let next_idx = self.next_table_index() as u32;
        let snap = snapshot.as_slice();
        let bytes = SSTable::write_new(snap);
        assert(snap@ == snapshot@);
        proof {
            let d = entry_views(snapshot@);
            assert(bytes@ == table_bytes(d));
        }
        Some((next_idx, bytes))
    }

    /// Parse a table file and make it the newest table.
    pub fn install_table(&mut self, idx: u32, contents: Vec<u8>) -> (res: Result<(), StoreError>)
        requires
            footer_in_range(contents@),
        ensures
            final(self).mem() == old(self).mem(),
            match res {
                Ok(()) => {
                    &&& final(self).tables().len() == old(self).tables().len() + 1
                    &&& final(self).tables().drop_first() == old(self).tables()
                    &&& final(self).tables()[0].0 == idx
                    &&& final(self).tables()[0].1.contents@ == contents@
                    &&& table_index(contents@) == Ok::<Seq<(Seq<u8>, u64)>, StoreError>(
                        index_views(final(self).tables()[0].1.index@),
                    )
                },
                Err(e) => {
                    &&& final(self).tables() == old(self).tables()
                    &&& table_index(contents@) == Err::<Seq<(Seq<u8>, u64)>, StoreError>(e)
                },
            },
    {
        proof {
            use_type_invariant(&*self);
        }
        let ghost bytes = contents@;
        match SSTable::open(contents) {
            Ok(t) => {
                let mut ts: Vec<(u32, SSTable)> = Vec::new();
                std::mem::swap(&mut ts, &mut self.sstables);
                ts.insert(0, (idx, t));
                self.sstables = ts;
                assert(self.sstables@.drop_first() =~= old(self).sstables@);
                Ok(())
            },
            Err(e) => Err(e),
        }
    }

    /// Drop every table; returns their indices, newest first.
    pub fn clear_tables(&mut self) -> (idxs: Vec<u32>)
        ensures
            final(self).mem() == old(self).mem(),
            final(self).tables().len() == 0,
            idxs@ == old(self).tables().map_values(|t: (u32, SSTable)| t.0),
    {
        proof {
            use_type_invariant(&*self);
        }
        let mut idxs: Vec<u32> = Vec::new();
        let mut i: usize = 0;
        while i < self.sstables.len()
            invariant
                i <= self.sstables@.len(),
                self.sstables@ == old(self).sstables@,
                idxs@ =~= old(self).sstables@.take(i as int).map_values(|t: (u32, SSTable)| t.0),
            decreases self.sstables.len() - i,
        {
            idxs.push(self.sstables[i].0);
            i = i + 1;
        }
        assert(old(self).sstables@.take(i as int) =~= old(self).sstables@);
        self.sstables = Vec::new();
        idxs
    }

    /// The bytes of the table that consolidates all tables: the newest entry
    /// of every key, deletions dropped. `None` when there is at most one
    /// table; an error when a table cannot be read.
    pub fn compact(&self) -> (res: Result<Option<Vec<u8>>, StoreError>)
        ensures
            self.tables().len() <= 1 ==> res == Ok::<Option<Vec<u8>>, StoreError>(None),
            self.tables().len() > 1 ==> match res {
                Ok(Some(bytes)) => match absorb_tables(self.tables()) {
                    Ok(m) => exists|d: Seq<EntryView>| {
                        &&& keys_sorted(d)
                        &&& entries_map(d) == live_entries(m)
                        &&& bytes@ == #[trigger] table_bytes(d)
                    },
                    Err(_) => false,
                },
                Ok(None) => false,
                Err(e) => absorb_tables(self.tables()) == Err::<Map<Seq<u8>, Option<Seq<u8>>>, StoreError>(e),
            },
    {
        if self.sstables.len() <= 1 {
            return Ok(None);
        }
        let ghost ts = self.sstables@;
        let n = self.sstables.len();
        let mut consolidated = MemTable::new();
        let mut k: usize = n;
        assert(ts.skip(n as int) =~= Seq::<(u32, SSTable)>::empty());
        while k > 0
            invariant
                k <= n,
                n == ts.len(),
                n > 1,
                ts == self.sstables@,
                consolidated.wf(),
                absorb_tables(ts.skip(k as int)) == Ok::<Map<Seq<u8>, Option<Seq<u8>>>, StoreError>(consolidated.view_map()),
            decreases k,
        {
            k = k - 1;
            assert(ts.skip(k as int).drop_first() =~= ts.skip(k + 1));
            assert(ts.skip(k as int)[0] == ts[k as int]);
            let t = &self.sstables[k].1;
            let ghost keys = index_keys(index_views(t.index@));
            let ghost start = consolidated.view_map();
            let mut j: usize = 0;
            assert(keys.take(0) =~= Seq::<Seq<u8>>::empty());
            while j < t.index.len()
                invariant
                    j <= t.index@.len(),
                    k < n,
                    n == ts.len(),
                    n > 1,
                    ts == self.sstables@,
                    *t == ts[k as int].1,
                    absorb_tables(ts.skip(k + 1)) == Ok::<Map<Seq<u8>, Option<Seq<u8>>>, StoreError>(start),
                    keys == index_keys(index_views(t.index@)),
                    consolidated.wf(),
                    absorb_keys(start, *t, keys.take(j as int)) == Ok::<Map<Seq<u8>, Option<Seq<u8>>>, StoreError>(consolidated.view_map()),
                decreases t.index.len() - j,
            {
                assert(keys.take(j + 1).drop_last() =~= keys.take(j as int));
                assert(keys.take(j + 1).last() == t.index@[j as int].key@);
                let key = &t.index[j].key;
                match t.get(key.as_slice()) {
                    Err(e) => {
                        proof {
                            lemma_absorb_keys_err(start, *t, keys, j as int + 1, e);
                            assert(ts.skip(k as int).drop_first() =~= ts.skip(k + 1));
                            assert(ts.skip(k as int)[0] == ts[k as int]);
                            lemma_absorb_tables_err(ts, k as int, e);
                        }
                        return Err(e);
                    },
                    Ok(Some(vo)) => {
                        consolidated.insert(key.clone(), vo);
                    },
                    Ok(None) => {},
                }
                j = j + 1;
            }
            assert(keys.take(t.index@.len() as int) =~= keys);
        }
        assert(ts.skip(0) =~= ts);
        // Clean up: filter out explicit tombstones (None) to free disk space
        let ghost m = consolidated.view_map();
        let ghost all = entry_views(consolidated.entries@);
        proof {
            crate::store::memtable::lemma_entries_map(all);
        }
        let mut data: Vec<(Vec<u8>, Option<Vec<u8>>)> = Vec::new();
        let mut i: usize = 0;
        assert(all.take(0) =~= Seq::<EntryView>::empty());
        while i < consolidated.entries.len()
            invariant
                i <= all.len(),
                all == entry_views(consolidated.entries@),
                entry_views(data@) == live_seq(all.take(i as int)),
            decreases consolidated.entries.len() - i,
        {
            assert(all.take(i + 1).drop_last() =~= all.take(i as int));
            let e = &consolidated.entries[i];
            assert(all.take(i + 1).last() == (e.0@, opt_view(e.1)));
            match &e.1 {
                Some(v) => {
                    let ghost before = entry_views(data@);
                    data.push((e.0.clone(), Some(v.clone())));
                    assert(entry_views(data@) =~= before.push((e.0@, opt_view(e.1))));
                },
                None => {},
            }
            i = i + 1;
        }
        assert(all.take(all.len() as int) =~= all);
        proof {
            lemma_live_seq(all);
        }
        let data_slice = data.as_slice();
        let bytes = SSTable::write_new(data_slice);
        assert(data_slice@ == data@);
        assert(table_bytes(entry_views(data@)) == bytes@);
        Ok(Some(bytes))
    }
}

proof fn lemma_table_order_distinct(idxs: Seq<u32>, perm: Seq<usize>)
    requires
        is_table_order(idxs, perm),
    ensures
        forall|x: int, y: int| 0 <= x < y < perm.len() ==> perm[x] != perm[y],
{
    assert forall|x: int, y: int| 0 <= x < y < perm.len() implies perm[x] != perm[y] by {
        assert(table_before(idxs, perm[x] as int, perm[y] as int));
    }
}

/// Reading a key after writing it gives the written value, and every other
/// key reads as before (`put` changes the in-memory table so, and no table).
pub proof fn law_read_after_put(
    o: SynapseStore,
    n: SynapseStore,
    key: Seq<u8>,
    val: Seq<u8>,
    other: Seq<u8>,
)
    requires
        n.mem().view_map() == o.mem().view_map().insert(key, Some(val)),
        n.tables() == o.tables(),
    ensures
        n.lookup(key) == Ok::<Option<Seq<u8>>, StoreError>(Some(val)),
        other != key ==> n.lookup(other) == o.lookup(other),
{
}

/// Reading a key after deleting it gives nothing, and every other key reads
/// as before (`delete` changes the in-memory table so, and no table).
pub proof fn law_read_after_delete(o: SynapseStore, n: SynapseStore, key: Seq<u8>, other: Seq<u8>)
    requires
        n.mem().view_map() == o.mem().view_map().insert(key, None),
        n.tables() == o.tables(),
    ensures
        n.lookup(key) == Ok::<Option<Seq<u8>>, StoreError>(None),
        other != key ==> n.lookup(other) == o.lookup(other),
{
}

/// What a table written from `d` answers for `key`.
proof fn lemma_written_table_lookup(t: SSTable, d: Seq<EntryView>, key: Seq<u8>)
    requires
        keys_sorted(d),
        entries_fit(d),
        t.contents@ == table_bytes(d),
        table_index(table_bytes(d)) == Ok::<Seq<(Seq<u8>, u64)>, StoreError>(index_views(t.index@)),
    ensures
        index_views(t.index@) == index_entries(d),
        t.lookup(key) == Ok::<Option<Option<Seq<u8>>>, StoreError>(
            if entries_map(d).contains_key(key) {
                Some(entries_map(d)[key])
            } else {
                None
            },
        ),
{
    law_table_roundtrip(d, key);
}

/// Writing out the in-memory table and installing the table file leaves
/// every read as it was: the new table, newest of all, holds what the
/// in-memory table held, and the in-memory table is empty.
pub proof fn law_flush_preserves_reads(o: SynapseStore, n: SynapseStore, d: Seq<EntryView>, key: Seq<u8>)
    requires
        keys_sorted(d),
        entries_fit(d),
        entries_map(d) == o.mem().view_map(),
        n.mem().view_map() == Map::<Seq<u8>, Option<Seq<u8>>>::empty(),
        n.tables().len() == o.tables().len() + 1,
        n.tables().drop_first() == o.tables(),
        n.tables()[0].1.contents@ == table_bytes(d),
        table_index(table_bytes(d)) == Ok::<Seq<(Seq<u8>, u64)>, StoreError>(
            index_views(n.tables()[0].1.index@),
        ),
    ensures
        n.lookup(key) == o.lookup(key),
{
    lemma_written_table_lookup(n.tables()[0].1, d, key);
}

/// The entries of tables written from `ds` (newest first), merged so that a
/// newer table's entry overrides an older one's.
pub open spec fn merged_entries(ds: Seq<Seq<EntryView>>) -> Map<Seq<u8>, Option<Seq<u8>>>
    decreases ds.len(),
{
    if ds.len() == 0 {
        Map::empty()
    } else {
        merged_entries(ds.drop_first()).union_prefer_right(entries_map(ds[0]))
    }
}

/// The tables `ts` were written from `ds`, one by one, each sorted by key and
/// in the format's limits, each index parsed from its file.
pub open spec fn written_from(ts: Seq<(u32, SSTable)>, ds: Seq<Seq<EntryView>>) -> bool {
    &&& ts.len() == ds.len()
    &&& forall|i: int| 0 <= i < ds.len() ==> {
        &&& keys_sorted(#[trigger] ds[i])
        &&& entries_fit(ds[i])
        &&& ts[i].1.contents@ == table_bytes(ds[i])
        &&& table_index(table_bytes(ds[i])) == Ok::<Seq<(Seq<u8>, u64)>, StoreError>(index_views(ts[i].1.index@))
    }
}

#[verifier::spinoff_prover]
proof fn lemma_absorb_written(m: Map<Seq<u8>, Option<Seq<u8>>>, t: SSTable, d: Seq<EntryView>, j: int)
    requires
        keys_sorted(d),
        entries_fit(d),
        t.contents@ == table_bytes(d),
        table_index(table_bytes(d)) == Ok::<Seq<(Seq<u8>, u64)>, StoreError>(index_views(t.index@)),
        0 <= j <= d.len(),
    ensures
        absorb_keys(m, t, index_keys(index_views(t.index@)).take(j)) == Ok::<Map<Seq<u8>, Option<Seq<u8>>>, StoreError>(
            m.union_prefer_right(entries_map(d.take(j))),
        ),
    decreases j,
{
    lemma_written_table_lookup(t, d, d[0].0);
    let keys = index_keys(index_views(t.index@));
    crate::store::sstable::lemma_index_entries(d);
    assert(keys.len() == d.len());
    if j == 0 {
        assert(keys.take(0) =~= Seq::<Seq<u8>>::empty());
        assert(entries_map(d.take(0)) =~= Map::<Seq<u8>, Option<Seq<u8>>>::empty());
        assert(m.union_prefer_right(Map::<Seq<u8>, Option<Seq<u8>>>::empty()) =~= m);
    } else {
        lemma_absorb_written(m, t, d, j - 1);
        assert(keys.take(j).drop_last() =~= keys.take(j - 1));
        assert(keys[j - 1] == index_entries(d)[j - 1].0);
        assert(keys.take(j).last() == d[j - 1].0);
        lemma_written_table_lookup(t, d, d[j - 1].0);
        crate::store::memtable::lemma_entries_map(d);
        assert(entries_map(d).contains_key(d[j - 1].0));
        assert(d.take(j).drop_last() =~= d.take(j - 1));
        assert(d.take(j).last() == d[j - 1]);
        assert(m.union_prefer_right(entries_map(d.take(j - 1))).insert(d[j - 1].0, d[j - 1].1) =~= m.union_prefer_right(
            entries_map(d.take(j)),
        ));
    }
}

proof fn lemma_absorb_tables_written(ts: Seq<(u32, SSTable)>, ds: Seq<Seq<EntryView>>)
    requires
        written_from(ts, ds),
    ensures
        absorb_tables(ts) == Ok::<Map<Seq<u8>, Option<Seq<u8>>>, StoreError>(merged_entries(ds)),
    decreases ts.len(),
{
    if ts.len() > 0 {
        let rts = ts.drop_first();
        let rds = ds.drop_first();
        assert(written_from(rts, rds)) by {
            assert forall|i: int| 0 <= i < rds.len() implies {
                &&& keys_sorted(#[trigger] rds[i])
                &&& entries_fit(rds[i])
                &&& rts[i].1.contents@ == table_bytes(rds[i])
                &&& table_index(table_bytes(rds[i])) == Ok::<Seq<(Seq<u8>, u64)>, StoreError>(index_views(rts[i].1.index@))
            } by {
                assert(rds[i] == ds[i + 1]);
                assert(rts[i] == ts[i + 1]);
            }
        }
        lemma_absorb_tables_written(rts, rds);
        assert(keys_sorted(ds[0]));
        let keys = index_keys(index_views(ts[0].1.index@));
        crate::store::sstable::lemma_index_entries(ds[0]);
        lemma_written_table_lookup(ts[0].1, ds[0], Seq::empty());
        lemma_absorb_written(merged_entries(rds), ts[0].1, ds[0], ds[0].len() as int);
        assert(keys.take(ds[0].len() as int) =~= keys);
        assert(ds[0].take(ds[0].len() as int) =~= ds[0]);
    }
}

/// What the tables written from `ds` answer for `key`.
proof fn lemma_tables_get_written(ts: Seq<(u32, SSTable)>, ds: Seq<Seq<EntryView>>, key: Seq<u8>)
    requires
        written_from(ts, ds),
    ensures
        tables_get(ts, key) == Ok::<Option<Seq<u8>>, StoreError>(
            if merged_entries(ds).contains_key(key) {
                merged_entries(ds)[key]
            } else {
                None
            },
        ),
    decreases ts.len(),
{
    if ts.len() > 0 {
        let rts = ts.drop_first();
        let rds = ds.drop_first();
        assert(written_from(rts, rds)) by {
            assert forall|i: int| 0 <= i < rds.len() implies {
                &&& keys_sorted(#[trigger] rds[i])
                &&& entries_fit(rds[i])
                &&& rts[i].1.contents@ == table_bytes(rds[i])
                &&& table_index(table_bytes(rds[i])) == Ok::<Seq<(Seq<u8>, u64)>, StoreError>(index_views(rts[i].1.index@))
            } by {
                assert(rds[i] == ds[i + 1]);
                assert(rts[i] == ts[i + 1]);
            }
        }
        lemma_tables_get_written(rts, rds, key);
        assert(keys_sorted(ds[0]));
        lemma_written_table_lookup(ts[0].1, ds[0], key);
    }
}

/// Replacing the tables by the one that compaction writes leaves every read
/// as it was, when each table was written from entries sorted by key:
/// compaction keeps the newest entry of every key and drops deletions, which
/// read as nothing either way.
pub proof fn law_compaction_preserves_reads(
    o: SynapseStore,
    n: SynapseStore,
    ds: Seq<Seq<EntryView>>,
    m: Map<Seq<u8>, Option<Seq<u8>>>,
    d: Seq<EntryView>,
    key: Seq<u8>,
)
    requires
        written_from(o.tables(), ds),
        absorb_tables(o.tables()) == Ok::<Map<Seq<u8>, Option<Seq<u8>>>, StoreError>(m),
        keys_sorted(d),
        entries_fit(d),
        entries_map(d) == live_entries(m),
        n.mem() == o.mem(),
        n.tables().len() == 1,
        n.tables()[0].1.contents@ == table_bytes(d),
        table_index(table_bytes(d)) == Ok::<Seq<(Seq<u8>, u64)>, StoreError>(index_views(n.tables()[0].1.index@)),
    ensures
        n.lookup(key) == o.lookup(key),
{
    lemma_absorb_tables_written(o.tables(), ds);
    lemma_tables_get_written(o.tables(), ds, key);
    lemma_written_table_lookup(n.tables()[0].1, d, key);
    assert(m == merged_entries(ds));
    let ts = n.tables();
    assert(ts.drop_first() =~= Seq::<(u32, SSTable)>::empty());
    assert(tables_get(ts.drop_first(), key) == Ok::<Option<Seq<u8>>, StoreError>(None));
    if live_entries(m).contains_key(key) {
        assert(tables_get(ts, key) == Ok::<Option<Seq<u8>>, StoreError>(m[key]));
    } else {
        assert(tables_get(ts, key) == Ok::<Option<Seq<u8>>, StoreError>(None));
        if m.contains_key(key) {
            assert(m[key] is None);
        }
    }
}

/// Table indices strictly decrease along `ts`: newest first, no index twice.
pub open spec fn newest_first(ts: Seq<(u32, SSTable)>) -> bool {
    forall|i: int, j: int| 0 <= i < j < ts.len() ==> (#[trigger] ts[i]).0 > (#[trigger] ts[j]).0
}

/// The table files of `ts`: each index with the file's bytes.
pub open spec fn files_of(ts: Seq<(u32, SSTable)>) -> Seq<(u32, Seq<u8>)> {
    ts.map_values(|t: (u32, SSTable)| (t.0, t.1.contents@))
}

/// The (index, bytes) views of table files given to `open`.
pub open spec fn file_views(files: Seq<(u32, Vec<u8>)>) -> Seq<(u32, Seq<u8>)> {
    files.map_values(|f: (u32, Vec<u8>)| (f.0, f.1@))
}

proof fn lemma_order_is_identity(idxs: Seq<u32>, perm: Seq<usize>)
    requires
        is_table_order(idxs, perm),
        forall|i: int, j: int| 0 <= i < j < idxs.len() ==> #[trigger] idxs[i] > #[trigger] idxs[j],
    ensures
        forall|a: int| 0 <= a < perm.len() ==> #[trigger] perm[a] == a,
{
    let n = perm.len();
    assert forall|a: int, b: int| 0 <= a < b < n implies #[trigger] perm[a] < #[trigger] perm[b] by {
        assert(table_before(idxs, perm[a] as int, perm[b] as int));
        if perm[a] > perm[b] {
            assert(idxs[perm[b] as int] > idxs[perm[a] as int]);
        }
    }
    assert forall|a: int| 0 <= a < n implies #[trigger] perm[a] == a by {
        lemma_increasing_lower(perm, a);
        lemma_increasing_upper(perm, a);
    }
}

proof fn lemma_increasing_lower(perm: Seq<usize>, a: int)
    requires
        0 <= a < perm.len(),
        forall|x: int, y: int| 0 <= x < y < perm.len() ==> #[trigger] perm[x] < #[trigger] perm[y],
    ensures
        perm[a] >= a,
    decreases a,
{
    if a > 0 {
        lemma_increasing_lower(perm, a - 1);
        assert(perm[a - 1] < perm[a]);
    }
}

proof fn lemma_increasing_upper(perm: Seq<usize>, a: int)
    requires
        0 <= a < perm.len(),
        forall|x: int| 0 <= x < perm.len() ==> #[trigger] perm[x] < perm.len(),
        forall|x: int, y: int| 0 <= x < y < perm.len() ==> #[trigger] perm[x] < #[trigger] perm[y],
    ensures
        perm[a] <= a,
    decreases perm.len() - a,
{
    if a < perm.len() - 1 {
        lemma_increasing_upper_from(perm, a, perm.len() - 1);
    }
}

proof fn lemma_increasing_upper_from(perm: Seq<usize>, a: int, b: int)
    requires
        0 <= a <= b < perm.len(),
        forall|x: int| 0 <= x < perm.len() ==> #[trigger] perm[x] < perm.len(),
        forall|x: int, y: int| 0 <= x < y < perm.len() ==> #[trigger] perm[x] < #[trigger] perm[y],
    ensures
        perm[a] + (b - a) <= perm[b],
    decreases b - a,
{
    if a < b {
        lemma_increasing_upper_from(perm, a + 1, b);
        assert(perm[a] < perm[a + 1]);
    }
}

proof fn lemma_same_tables_get(x: Seq<(u32, SSTable)>, y: Seq<(u32, SSTable)>, key: Seq<u8>)
    requires
        x.len() == y.len(),
        forall|i: int| 0 <= i < x.len() ==> (#[trigger] x[i]).1.contents@ == y[i].1.contents@
            && index_views(x[i].1.index@) == index_views(y[i].1.index@),
    ensures
        tables_get(x, key) == tables_get(y, key),
    decreases x.len(),
{
    if x.len() > 0 {
        assert(x[0].1.contents@ == y[0].1.contents@);
        lemma_same_tables_get(x.drop_first(), y.drop_first(), key);
        assert forall|i: int| 0 <= i < x.drop_first().len() implies (#[trigger] x.drop_first()[i]).1.contents@
            == y.drop_first()[i].1.contents@ && index_views(x.drop_first()[i].1.index@) == index_views(
            y.drop_first()[i].1.index@,
        ) by {
            assert(x.drop_first()[i] == x[i + 1]);
            assert(y.drop_first()[i] == y[i + 1]);
        }
        lemma_same_tables_get(x.drop_first(), y.drop_first(), key);
    }
}

/// Reopening keeps every table in its place: the same index, the same file,
/// and the index that the file parses to.
pub(crate) proof fn lemma_reopen_same_tables(
    o: SynapseStore,
    files: Seq<(u32, Vec<u8>)>,
    log: Seq<u8>,
    perm: Seq<usize>,
    n: SynapseStore,
)
    requires
        newest_first(o.tables()),
        file_views(files) == files_of(o.tables()),
        is_table_order(table_indices(files), perm),
        opened_as(files, log, perm, Ok::<SynapseStore, StoreError>(n)),
    ensures
        n.tables().len() == o.tables().len(),
        forall|i: int| 0 <= i < n.tables().len() ==> {
            &&& (#[trigger] n.tables()[i]).0 == o.tables()[i].0
            &&& n.tables()[i].1.contents@ == o.tables()[i].1.contents@
            &&& table_index(o.tables()[i].1.contents@) == Ok::<Seq<(Seq<u8>, u64)>, StoreError>(
                index_views(n.tables()[i].1.index@),
            )
        },
{
    let ot = o.tables();
    let nt = n.tables();
    assert(file_views(files).len() == files.len());
    assert(files_of(ot).len() == ot.len());
    assert forall|i: int| 0 <= i < files.len() implies #[trigger] table_indices(files)[i] == ot[i].0 by {
        assert(file_views(files)[i] == files_of(ot)[i]);
    }
    assert forall|i: int, j: int| 0 <= i < j < files.len() implies #[trigger] table_indices(files)[i]
        > #[trigger] table_indices(files)[j] by {
        assert(table_indices(files)[i] == ot[i].0);
        assert(table_indices(files)[j] == ot[j].0);
    }
    lemma_order_is_identity(table_indices(files), perm);
    assert forall|i: int| 0 <= i < nt.len() implies {
        &&& (#[trigger] nt[i]).0 == ot[i].0
        &&& nt[i].1.contents@ == ot[i].1.contents@
        &&& table_index(ot[i].1.contents@) == Ok::<Seq<(Seq<u8>, u64)>, StoreError>(index_views(nt[i].1.index@))
    } by {
        assert(perm[i] == i);
        assert(file_views(files)[i] == files_of(ot)[i]);
        assert(files[i].1@ == ot[i].1.contents@);
        assert(files[i].0 == ot[i].0);
    }
}

/// Reopening a store from its table files and its log reads every key as
/// before: when its tables are kept newest first with distinct indices (as
/// flushing and compaction keep them), each was parsed from its file, and
/// the in-memory table holds what the log's operations give.
pub proof fn law_reopen_preserves_reads(
    o: SynapseStore,
    ops: Seq<OpView>,
    files: Seq<(u32, Vec<u8>)>,
    perm: Seq<usize>,
    n: SynapseStore,
    key: Seq<u8>,
)
    requires
        newest_first(o.tables()),
        forall|i: int| 0 <= i < o.tables().len() ==> table_index((#[trigger] o.tables()[i]).1.contents@)
            == Ok::<Seq<(Seq<u8>, u64)>, StoreError>(index_views(o.tables()[i].1.index@)),
        file_views(files) == files_of(o.tables()),
        forall|i: int| 0 <= i < ops.len() ==> op_fits(#[trigger] ops[i]),
        o.mem().view_map() == replay(ops),
        is_table_order(table_indices(files), perm),
        opened_as(files, log_bytes(ops), perm, Ok::<SynapseStore, StoreError>(n)),
    ensures
        n.lookup(key) == o.lookup(key),
{
    let ot = o.tables();
    let nt = n.tables();
    lemma_reopen_same_tables(o, files, log_bytes(ops), perm, n);
    assert forall|i: int| 0 <= i < nt.len() implies (#[trigger] nt[i]).1.contents@ == ot[i].1.contents@
        && index_views(nt[i].1.index@) == index_views(ot[i].1.index@) by {
        assert(table_index(ot[i].1.contents@) == Ok::<Seq<(Seq<u8>, u64)>, StoreError>(index_views(ot[i].1.index@)));
    }
    lemma_same_tables_get(nt, ot, key);
    law_log_roundtrip(ops);
}

proof fn lemma_next_index_above(ts: Seq<(u32, SSTable)>)
    ensures
        forall|i: int| 0 <= i < ts.len() ==> (#[trigger] ts[i]).0 < next_index(ts),
        next_index(ts) >= 1,
    decreases ts.len(),
{
    if ts.len() > 0 {
        lemma_next_index_above(ts.drop_last());
        assert forall|i: int| 0 <= i < ts.len() implies (#[trigger] ts[i]).0 < next_index(ts) by {
            if i < ts.len() - 1 {
                assert(ts[i] == ts.drop_last()[i]);
            }
        }
    }
}

/// Installing the table that a flush writes, under the index the flush
/// chose, keeps the tables newest first with distinct indices.
pub proof fn law_install_keeps_order(o: SynapseStore, n: SynapseStore)
    requires
        newest_first(o.tables()),
        n.tables().len() == o.tables().len() + 1,
        n.tables().drop_first() == o.tables(),
        n.tables()[0].0 == next_index(o.tables()),
    ensures
        newest_first(n.tables()),
{
    lemma_next_index_above(o.tables());
    let nt = n.tables();
    assert forall|i: int, j: int| 0 <= i < j < nt.len() implies (#[trigger] nt[i]).0 > (#[trigger] nt[j]).0 by {
        assert(nt[j] == o.tables()[j - 1]);
        if i > 0 {
            assert(nt[i] == o.tables()[i - 1]);
        }
    }
}

} // verus!
