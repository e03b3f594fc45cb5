//! The sorted-table file format and lookups in it.
//!
//! A table is a data block, an index block and an 8-byte footer. The data
//! block holds one record per entry, `[key len: u32] [value len: u32] [key]
//! [value]`, where a deleted key has the value length `0xFFFFFFFF` and no
//! value. The index block holds, per entry, `[key len: u32] [offset: u64]
//! [key]`, the offset being where the entry's record starts. The footer is
//! the offset of the index block. Integers are little-endian.

use vstd::prelude::*;
use crate::order::{compare_bytes, lex_lt, Cmp};
use crate::store::bytes::{
    append_bytes, copy_range, get_u32, get_u64, lemma_u32_le, lemma_u64_le, push_u32, push_u64,
    read_u32, read_u64, u32_le, u64_le,
};
use crate::store::memtable::{entries_map, keys_sorted, lemma_entries_map};
use crate::store::{DataFault, StoreError};

verus! {

/// A table entry over byte sequences: a key and its value, `None` for a deleted key.
pub type EntryView = (Seq<u8>, Option<Seq<u8>>);

pub open spec fn opt_view(o: Option<Vec<u8>>) -> Option<Seq<u8>> {
    match o {
        Some(v) => Some(v@),
        None => None,
    }
}

pub open spec fn entry_views(d: Seq<(Vec<u8>, Option<Vec<u8>>)>) -> Seq<EntryView> {
    d.map_values(|e: (Vec<u8>, Option<Vec<u8>>)| (e.0@, opt_view(e.1)))
}

/// The data-block record of one entry.
pub open spec fn entry_record(e: EntryView) -> Seq<u8> {
    match e.1 {
        Some(v) => u32_le(e.0.len() as u32) + u32_le(v.len() as u32) + e.0 + v,
        None => u32_le(e.0.len() as u32) + u32_le(u32::MAX) + e.0,
    }
}

/// The data block of a table holding `d`.
pub open spec fn data_block(d: Seq<EntryView>) -> Seq<u8>
    decreases d.len(),
{
    if d.len() == 0 {
        Seq::empty()
    } else {
        data_block(d.drop_last()) + entry_record(d.last())
    }
}

/// The index block of a table holding `d`.
pub open spec fn index_block(d: Seq<EntryView>) -> Seq<u8>
    decreases d.len(),
{
    if d.len() == 0 {
        Seq::empty()
    } else {
        index_block(d.drop_last()) + u32_le(d.last().0.len() as u32) + u64_le(
            data_block(d.drop_last()).len() as u64,
        ) + d.last().0
    }
}

/// The bytes of a table file holding `d`, in order.
pub open spec fn table_bytes(d: Seq<EntryView>) -> Seq<u8> {
    data_block(d) + index_block(d) + u64_le(data_block(d).len() as u64)
}

/// The index entries read from an index block, from byte `cur` on. A tail
/// too short for a record header is ignored; a key that runs past the block
/// is `CorruptedIndex`.
pub open spec fn parse_index_from(ib: Seq<u8>, cur: nat) -> Result<Seq<(Seq<u8>, u64)>, StoreError>
    decreases ib.len() - cur,
{
    if cur + 12 > ib.len() {
        Ok(Seq::empty())
    } else {
        let kl = read_u32(ib, cur as int) as nat;
        let off = read_u64(ib, cur + 4int);
        let next = cur + 12 + kl;
        if next > ib.len() {
            Err(StoreError::InvalidData(DataFault::CorruptedIndex))
        } else {
            match parse_index_from(ib, next) {
                Ok(rest) => Ok(seq![(ib.subrange(cur + 12int, next as int), off)] + rest),
                Err(e) => Err(e),
            }
        }
    }
}

/// Where the footer of `b` says the index block starts.
pub open spec fn footer_offset(b: Seq<u8>) -> u64 {
    read_u64(b, b.len() - 8)
}

/// The footer of `b` points inside the file, before the footer.
pub open spec fn footer_in_range(b: Seq<u8>) -> bool {
    b.len() < 8 || footer_offset(b) <= b.len() - 8
}

/// The index of the table file `b`.
pub open spec fn table_index(b: Seq<u8>) -> Result<Seq<(Seq<u8>, u64)>, StoreError> {
    if b.len() < 8 {
        Err(StoreError::InvalidData(DataFault::TableTooSmall))
    } else {
        parse_index_from(b.subrange(footer_offset(b) as int, b.len() - 8), 0)
    }
}

/// Position of `key` among the index keys between `lo` and `hi`, by bisection.
pub open spec fn bsearch(keys: Seq<Seq<u8>>, key: Seq<u8>, lo: int, hi: int) -> Option<int>
    decreases hi - lo,
{
    if lo >= hi {
        None
    } else {
        let mid = lo + (hi - lo) / 2;
        if lex_lt(keys[mid], key) {
            bsearch(keys, key, mid + 1, hi)
        } else if keys[mid] == key {
            Some(mid)
        } else {
            bsearch(keys, key, lo, mid)
        }
    }
}

proof fn lemma_bsearch_range(keys: Seq<Seq<u8>>, key: Seq<u8>, lo: int, hi: int)
    ensures
        bsearch(keys, key, lo, hi) matches Some(i) ==> lo <= i < hi,
    decreases hi - lo,
{
    if lo < hi {
        let mid = lo + (hi - lo) / 2;
        lemma_bsearch_range(keys, key, mid + 1, hi);
        lemma_bsearch_range(keys, key, lo, mid);
    }
}

/// What the record at `off` in `b` says of `key`: `Ok(None)` when the record
/// is for another key, `Ok(Some(None))` for a deleted key, the value
/// otherwise; a record that runs past the file is `UnexpectedEof`.
pub open spec fn read_record(b: Seq<u8>, off: u64, key: Seq<u8>) -> Result<
    Option<Option<Seq<u8>>>,
    StoreError,
> {
    let o = off as int;
    if o + 8 > b.len() {
        Err(StoreError::UnexpectedEof)
    } else {
        let kl = read_u32(b, o) as int;
        let vr = read_u32(b, o + 4);
        if o + 8 + kl > b.len() {
            Err(StoreError::UnexpectedEof)
        } else if b.subrange(o + 8, o + 8 + kl) != key {
            Ok(None)
        } else if vr == u32::MAX {
            Ok(Some(None))
        } else if o + 8 + kl + vr > b.len() {
            Err(StoreError::UnexpectedEof)
        } else {
            Ok(Some(Some(b.subrange(o + 8 + kl, o + 8 + kl + vr))))
        }
    }
}

/// One entry of a table's index: a key and where its record starts.
#[derive(Debug, Clone)]
pub struct IndexRecord {
    pub key: Vec<u8>,
    pub offset: u64,
}

pub open spec fn index_views(idx: Seq<IndexRecord>) -> Seq<(Seq<u8>, u64)> {
    idx.map_values(|r: IndexRecord| (r.key@, r.offset))
}

pub open spec fn index_keys(idx: Seq<(Seq<u8>, u64)>) -> Seq<Seq<u8>> {
    idx.map_values(|r: (Seq<u8>, u64)| r.0)
}

/// A sorted table: the file's bytes and its parsed index.
pub struct SSTable {
    pub contents: Vec<u8>,
    pub index: Vec<IndexRecord>,
}

/// What looking `key` up in a table with these bytes and index gives:
/// `Ok(None)` when the index does not lead to the key, `Ok(Some(None))` when
/// the key is deleted, its value otherwise.
pub open spec fn table_get(b: Seq<u8>, idx: Seq<(Seq<u8>, u64)>, key: Seq<u8>) -> Result<
    Option<Option<Seq<u8>>>,
    StoreError,
> {
    match bsearch(index_keys(idx), key, 0, idx.len() as int) {
        None => Ok(None),
        Some(i) => read_record(b, idx[i].1, key),
    }
}

impl SSTable {
    pub open spec fn lookup(&self, key: Seq<u8>) -> Result<Option<Option<Seq<u8>>>, StoreError> {
        table_get(self.contents@, index_views(self.index@), key)
    }

    /// The bytes of a new table file holding `data`, which is sorted by key.
    pub fn write_new(data: &[(Vec<u8>, Option<Vec<u8>>)]) -> (out: Vec<u8>)
        ensures
            out@ == table_bytes(entry_views(data@)),
    {
        let ghost d = entry_views(data@);
        let mut out: Vec<u8> = Vec::new();
        let mut index_block_bytes: Vec<u8> = Vec::new();
        let mut i: usize = 0;
        assert(d.take(0) =~= Seq::<EntryView>::empty());
        while i < data.len()
            invariant
                i <= data@.len(),
                d == entry_views(data@),
                out@ == data_block(d.take(i as int)),
                index_block_bytes@ == index_block(d.take(i as int)),
            decreases data.len() - i,
        {
            let ghost pre = d.take(i as int);
            let ghost post = d.take(i + 1);
            assert(post.drop_last() =~= pre);
            let entry = &data[i];
            assert(post.last() == (entry.0@, opt_view(entry.1)));
            let offset = out.len() as u64;
            push_u32(&mut index_block_bytes, entry.0.len() as u32);
            push_u64(&mut index_block_bytes, offset);
            append_bytes(&mut index_block_bytes, entry.0.as_slice());
            push_u32(&mut out, entry.0.len() as u32);
            match &entry.1 {
                Some(val) => {
                    push_u32(&mut out, val.len() as u32);
                    append_bytes(&mut out, entry.0.as_slice());
                    append_bytes(&mut out, val.as_slice());
                },
                None => {
                    push_u32(&mut out, u32::MAX);
                    append_bytes(&mut out, entry.0.as_slice());
                },
            }
            assert(out@ =~= data_block(post));
            assert(index_block_bytes@ =~= index_block(post));
            i = i + 1;
        }
        assert(d.take(data@.len() as int) =~= d);
        let index_block_offset = out.len() as u64;
        out.append(&mut index_block_bytes);
        push_u64(&mut out, index_block_offset);
        out
    }

    /// Whether the footer of a table file points before the footer; `open`
    /// needs that of its input.
    pub fn footer_in_range(contents: &[u8]) -> (ok: bool)
        ensures
            ok == footer_in_range(contents@),
    {
        let n = contents.len();
        if n < 8 {
            true
        } else {
            get_u64(contents, n - 8) <= (n - 8) as u64
        }
    }

    /// Parse the index of a table file.
    pub fn open(contents: Vec<u8>) -> (res: Result<SSTable, StoreError>)
        requires
            footer_in_range(contents@),
        ensures
            match res {
                Ok(t) => t.contents@ == contents@ && table_index(contents@) == Ok::<
                    Seq<(Seq<u8>, u64)>,
                    StoreError,
                >(index_views(t.index@)),
                Err(e) => table_index(contents@) == Err::<Seq<(Seq<u8>, u64)>, StoreError>(e),
            },
    {
        let n = contents.len();
        if n < 8 {
            return Err(StoreError::InvalidData(DataFault::TableTooSmall));
        }
        let index_block_offset = get_u64(contents.as_slice(), n - 8) as usize;
        let ib = vstd::slice::slice_subrange(contents.as_slice(), index_block_offset, n - 8);
        let ghost b = ib@;
        let len = ib.len();
        let mut index: Vec<IndexRecord> = Vec::new();
        let mut cursor: usize = 0;
        assert(index_views(index@) =~= Seq::<(Seq<u8>, u64)>::empty());
        assert(b == contents@.subrange(footer_offset(contents@) as int, contents@.len() - 8));
        while len - cursor >= 12
            invariant
                contents@.len() >= 8,
                b == contents@.subrange(footer_offset(contents@) as int, contents@.len() - 8),
                b == ib@,
                len == b.len(),
                cursor <= len,
                parse_index_from(b, 0) == match parse_index_from(b, cursor as nat) {
                    Ok(rest) => Ok(index_views(index@) + rest),
                    Err(e) => Err(e),
                },
            decreases len - cursor,
        {
            let key_len = get_u32(ib, cursor) as usize;
            let offset = get_u64(ib, cursor + 4);
            if len - cursor - 12 < key_len {
                return Err(StoreError::InvalidData(DataFault::CorruptedIndex));
            }
            let key = copy_range(ib, cursor + 12, cursor + 12 + key_len);
            let ghost before = index_views(index@);
            let ghost entry = (key@, offset);
            index.push(IndexRecord { key, offset });
            assert(index_views(index@) =~= before.push(entry));
            let next = cursor + 12 + key_len;
            proof {
                match parse_index_from(b, next as nat) {
                    Ok(rest) => {
                        assert(before.push(entry) + rest =~= before + (seq![entry] + rest));
                    },
                    Err(_) => {},
                }
            }
            cursor = next;
        }
        assert(parse_index_from(b, cursor as nat) == Ok::<Seq<(Seq<u8>, u64)>, StoreError>(
            Seq::empty(),
        ));
        assert(index_views(index@) + Seq::<(Seq<u8>, u64)>::empty() =~= index_views(index@));
        Ok(SSTable { contents, index })
    }

    /// Binary search the index for `key`.
    fn find(&self, key: &[u8]) -> (res: Option<usize>)
        ensures
            match bsearch(index_keys(index_views(self.index@)), key@, 0, self.index@.len() as int) {
                Some(i) => res is Some && res.unwrap() as int == i,
                None => res is None,
            },
    {
        let ghost keys = index_keys(index_views(self.index@));
        let mut lo: usize = 0;
        let mut hi: usize = self.index.len();
        while lo < hi
            invariant
                lo <= hi <= self.index@.len(),
                keys == index_keys(index_views(self.index@)),
                bsearch(keys, key@, 0, self.index@.len() as int) == bsearch(
                    keys,
                    key@,
                    lo as int,
                    hi as int,
                ),
            decreases hi - lo,
        {
            let mid = lo + (hi - lo) / 2;
            assert(keys[mid as int] == self.index@[mid as int].key@);
            match compare_bytes(self.index[mid].key.as_slice(), key) {
                Cmp::Less => {
                    lo = mid + 1;
                },
                Cmp::Equal => {
                    assert(bsearch(keys, key@, lo as int, hi as int) == Some(mid as int));
                    return Some(mid);
                },
                Cmp::Greater => {
                    proof {
                        crate::order::lemma_lex_asymmetric(keys[mid as int], key@);
                    }
                    hi = mid;
                },
            }
        }
        None
    }

    /// Binary search the index and read the entry's record.
    pub fn get(&self, key: &[u8]) -> (res: Result<Option<Option<Vec<u8>>>, StoreError>)
        ensures
            match res {
                Ok(r) => self.lookup(key@) == Ok::<Option<Option<Seq<u8>>>, StoreError>(
                    match r {
                        Some(o) => Some(opt_view(o)),
                        None => None,
                    },
                ),
                Err(e) => self.lookup(key@) == Err::<Option<Option<Seq<u8>>>, StoreError>(e),
            },
    {
        if self.index.len() == 0 {
            return Ok(None);
        }
        proof {
            lemma_bsearch_range(index_keys(index_views(self.index@)), key@, 0, self.index@.len() as int);
        }
        let record_idx = match self.find(key) {
            Some(idx) => idx,
            None => return Ok(None),
        };
        let offset = self.index[record_idx].offset;
        let b = self.contents.as_slice();
        let n = b.len();
        if offset > n as u64 || (n as u64) - offset < 8 {
            return Err(StoreError::UnexpectedEof);
        }
        let at = offset as usize;
        let key_len = get_u32(b, at) as usize;
        let val_len_raw = get_u32(b, at + 4);
        if n - at - 8 < key_len {
            return Err(StoreError::UnexpectedEof);
        }
        let read_key = vstd::slice::slice_subrange(b, at + 8, at + 8 + key_len);
        if compare_bytes(read_key, key) != Cmp::Equal {
            return Ok(None);
        }
        if val_len_raw == u32::MAX {
            return Ok(Some(None));
        }
        let val_len = val_len_raw as usize;
        if n - at - 8 - key_len < val_len {
            return Err(StoreError::UnexpectedEof);
        }
        let val = copy_range(b, at + 8 + key_len, at + 8 + key_len + val_len);
        Ok(Some(Some(val)))
    }
}

/// Entries a table file can hold: each key length fits the `u32` length
/// field, each value length fits it below the deletion mark `0xFFFFFFFF`,
/// and the file's offsets fit in a `u64`.
pub open spec fn entries_fit(d: Seq<EntryView>) -> bool {
    &&& forall|i: int| 0 <= i < d.len() ==> (#[trigger] d[i]).0.len() <= u32::MAX
    &&& forall|i: int| 0 <= i < d.len() ==> ((#[trigger] d[i]).1 matches Some(v) ==> v.len() < u32::MAX)
    &&& table_bytes(d).len() <= u64::MAX
}

/// The index that a table holding `d` has: each key with the offset of its record.
pub open spec fn index_entries(d: Seq<EntryView>) -> Seq<(Seq<u8>, u64)>
    decreases d.len(),
{
    if d.len() == 0 {
        Seq::empty()
    } else {
        index_entries(d.drop_last()).push((d.last().0, data_block(d.drop_last()).len() as u64))
    }
}

/// `xs` in front of what an index parse gave.
pub open spec fn index_prefixed(
    xs: Seq<(Seq<u8>, u64)>,
    r: Result<Seq<(Seq<u8>, u64)>, StoreError>,
) -> Result<Seq<(Seq<u8>, u64)>, StoreError> {
    match r {
        Ok(rest) => Ok(xs + rest),
        Err(e) => Err(e),
    }
}

proof fn lemma_index_shift(a: Seq<u8>, b: Seq<u8>, c: nat)
    ensures
        parse_index_from(a + b, a.len() + c) == parse_index_from(b, c),
    decreases b.len() - c,
{
    let ab = a + b;
    let p: int = a.len() + c as int;
    let ci: int = c as int;
    if ci + 12 <= b.len() {
        assert(ab.subrange(p, p + 4) =~= b.subrange(ci, ci + 4));
        assert(ab.subrange(p + 4, p + 12) =~= b.subrange(ci + 4, ci + 12));
        let kl: int = read_u32(b, ci) as int;
        let next: int = ci + 12 + kl;
        if next <= b.len() {
            assert(ab.subrange(p + 12, a.len() + next) =~= b.subrange(ci + 12, next));
            lemma_index_shift(a, b, next as nat);
        }
    }
}

proof fn lemma_index_record(k: Seq<u8>, off: u64, b: Seq<u8>)
    requires
        k.len() <= u32::MAX,
    ensures
        parse_index_from(u32_le(k.len() as u32) + u64_le(off) + k + b, 0) == index_prefixed(
            seq![(k, off)],
            parse_index_from(b, 0),
        ),
{
    let r = u32_le(k.len() as u32) + u64_le(off) + k;
    let rb = r + b;
    lemma_u32_le(k.len() as u32);
    lemma_u64_le(off);
    assert(u32_le(k.len() as u32) + u64_le(off) + k + b == rb);
    assert(rb.subrange(0, 4) =~= u32_le(k.len() as u32));
    assert(rb.subrange(4, 12) =~= u64_le(off));
    assert(rb.subrange(12, 12 + k.len() as int) =~= k);
    assert(r.len() == 12 + k.len());
    lemma_index_shift(r, b, 0);
    match parse_index_from(b, 0) {
        Ok(rest) => {},
        Err(e) => {},
    }
}

proof fn lemma_parse_index_block(d: Seq<EntryView>, b: Seq<u8>)
    requires
        forall|i: int| 0 <= i < d.len() ==> (#[trigger] d[i]).0.len() <= u32::MAX,
    ensures
        parse_index_from(index_block(d) + b, 0) == index_prefixed(index_entries(d), parse_index_from(b, 0)),
    decreases d.len(),
{
    if d.len() == 0 {
        assert(index_block(d) + b =~= b);
        match parse_index_from(b, 0) {
            Ok(rest) => {
                assert(index_entries(d) + rest =~= rest);
            },
            Err(e) => {},
        }
    } else {
        let front = d.drop_last();
        let last = d.last();
        assert(d[d.len() - 1] == last);
        assert forall|i: int| 0 <= i < front.len() implies (#[trigger] front[i]).0.len() <= u32::MAX by {
            assert(front[i] == d[i]);
        }
        let off = data_block(front).len() as u64;
        let rec = u32_le(last.0.len() as u32) + u64_le(off) + last.0;
        assert(index_block(d) + b =~= index_block(front) + (rec + b));
        lemma_parse_index_block(front, rec + b);
        lemma_index_record(last.0, off, b);
        assert(rec + b =~= u32_le(last.0.len() as u32) + u64_le(off) + last.0 + b);
        match parse_index_from(b, 0) {
            Ok(rest) => {
                assert(index_entries(front) + (seq![(last.0, off)] + rest) =~= index_entries(d) + rest);
            },
            Err(e) => {},
        }
    }
}

proof fn lemma_data_block_prefix(d: Seq<EntryView>, j: int)
    requires
        0 <= j <= d.len(),
    ensures
        data_block(d.take(j)).len() <= data_block(d).len(),
        data_block(d).take(data_block(d.take(j)).len() as int) == data_block(d.take(j)),
    decreases d.len(),
{
    if j == d.len() {
        assert(d.take(j) =~= d);
        assert(data_block(d).take(data_block(d).len() as int) =~= data_block(d));
    } else {
        let front = d.drop_last();
        assert(d.take(j) =~= front.take(j));
        lemma_data_block_prefix(front, j);
        assert(data_block(d) == data_block(front) + entry_record(d.last()));
        assert(data_block(d).take(data_block(d.take(j)).len() as int) =~= data_block(front).take(
            data_block(d.take(j)).len() as int,
        ));
    }
}

pub proof fn lemma_index_entries(d: Seq<EntryView>)
    ensures
        index_entries(d).len() == d.len(),
        forall|i: int|
            0 <= i < d.len() ==> #[trigger] index_entries(d)[i] == (d[i].0, data_block(d.take(i)).len() as u64),
    decreases d.len(),
{
    if d.len() > 0 {
        let front = d.drop_last();
        lemma_index_entries(front);
        assert forall|i: int| 0 <= i < d.len() implies #[trigger] index_entries(d)[i] == (
            d[i].0,
            data_block(d.take(i)).len() as u64,
        ) by {
            if i < d.len() - 1 {
                assert(front[i] == d[i]);
                assert(front.take(i) =~= d.take(i));
            } else {
                assert(d.take(i) =~= front);
            }
        }
    }
}

proof fn lemma_bsearch_sorted(keys: Seq<Seq<u8>>, key: Seq<u8>, lo: int, hi: int)
    requires
        0 <= lo <= hi <= keys.len(),
        forall|i: int, j: int| 0 <= i < j < keys.len() ==> lex_lt(#[trigger] keys[i], #[trigger] keys[j]),
    ensures
        bsearch(keys, key, lo, hi) matches Some(i) ==> lo <= i < hi && keys[i] == key,
        (exists|i: int| lo <= i < hi && keys[i] == key) ==> bsearch(keys, key, lo, hi) is Some,
    decreases hi - lo,
{
    if lo < hi {
        let mid = lo + (hi - lo) / 2;
        lemma_bsearch_sorted(keys, key, mid + 1, hi);
        lemma_bsearch_sorted(keys, key, lo, mid);
        if exists|i: int| lo <= i < hi && keys[i] == key {
            let i = choose|i: int| lo <= i < hi && keys[i] == key;
            if lex_lt(keys[mid], key) {
                if i <= mid {
                    if i < mid {
                        assert(lex_lt(keys[i], keys[mid]));
                        crate::order::lemma_lex_asymmetric(keys[i], keys[mid]);
                    } else {
                        crate::order::lemma_lex_irreflexive(key);
                    }
                }
            } else if keys[mid] != key {
                if i > mid {
                    assert(lex_lt(keys[mid], keys[i]));
                }
            }
        }
    }
}

proof fn lemma_read_entry(d: Seq<EntryView>, i: int)
    requires
        0 <= i < d.len(),
        entries_fit(d),
    ensures
        read_record(table_bytes(d), data_block(d.take(i)).len() as u64, d[i].0) == Ok::<
            Option<Option<Seq<u8>>>,
            StoreError,
        >(Some(d[i].1)),
{
    let e = d[i];
    let pre = data_block(d.take(i));
    let rec = entry_record(e);
    assert(d.take(i + 1).drop_last() =~= d.take(i));
    assert(d.take(i + 1).last() == e);
    assert(data_block(d.take(i + 1)) == pre + rec);
    lemma_data_block_prefix(d, i + 1);
    let b = table_bytes(d);
    let o: int = pre.len() as int;
    assert(b.subrange(o, o + rec.len()) =~= rec) by {
        assert(data_block(d).take(o + rec.len()) == pre + rec);
        assert forall|x: int| 0 <= x < rec.len() implies b[o + x] == rec[x] by {
            assert(b[o + x] == data_block(d)[o + x]);
            assert(data_block(d).take(o + rec.len())[o + x] == data_block(d)[o + x]);
            assert((pre + rec)[o + x] == rec[x]);
        }
    }
    assert(e.0.len() <= u32::MAX);
    lemma_u32_le(e.0.len() as u32);
    lemma_u32_le(u32::MAX);
    match e.1 {
        Some(v) => {
            lemma_u32_le(v.len() as u32);
            assert(rec.len() == 8 + e.0.len() + v.len());
        },
        None => {
            assert(rec.len() == 8 + e.0.len());
        },
    }
    assert(b.subrange(o, o + 4) =~= rec.subrange(0, 4));
    assert(rec.subrange(0, 4) =~= u32_le(e.0.len() as u32));
    assert(b.subrange(o + 4, o + 8) =~= rec.subrange(4, 8));
    assert(b.subrange(o + 8, o + 8 + e.0.len()) =~= rec.subrange(8, 8 + e.0.len() as int));
    assert(rec.subrange(8, 8 + e.0.len() as int) =~= e.0);
    assert(o + rec.len() <= b.len());
    match e.1 {
        Some(v) => {
            assert(v.len() < u32::MAX);
            lemma_u32_le(v.len() as u32);
            assert(rec.subrange(4, 8) =~= u32_le(v.len() as u32));
            assert(b.subrange(o + 8 + e.0.len(), o + 8 + e.0.len() + v.len()) =~= rec.subrange(
                8 + e.0.len() as int,
                8 + e.0.len() as int + v.len() as int,
            ));
            assert(rec.subrange(8 + e.0.len() as int, 8 + e.0.len() as int + v.len() as int) =~= v);
        },
        None => {
            lemma_u32_le(u32::MAX);
            assert(rec.subrange(4, 8) =~= u32_le(u32::MAX));
        },
    }
}

/// A table written from entries sorted by key, which the file format can
/// hold, reads back as written: its footer is in range, its index lists each
/// key with the offset of its record, and looking a key up gives its value
/// or deletion when it is among the entries and nothing otherwise.
pub proof fn law_table_roundtrip(d: Seq<EntryView>, key: Seq<u8>)
    requires
        keys_sorted(d),
        entries_fit(d),
    ensures
        footer_in_range(table_bytes(d)),
        table_index(table_bytes(d)) == Ok::<Seq<(Seq<u8>, u64)>, StoreError>(index_entries(d)),
        table_get(table_bytes(d), index_entries(d), key) == Ok::<Option<Option<Seq<u8>>>, StoreError>(
            if entries_map(d).contains_key(key) {
                Some(entries_map(d)[key])
            } else {
                None
            },
        ),
{
    let b = table_bytes(d);
    let db = data_block(d);
    let ib = index_block(d);
    lemma_u64_le(db.len() as u64);
    assert(b.subrange(b.len() - 8, b.len() as int) =~= u64_le(db.len() as u64));
    assert(footer_offset(b) == db.len());
    assert(b.subrange(db.len() as int, b.len() - 8) =~= ib);
    assert forall|i: int| 0 <= i < d.len() implies (#[trigger] d[i]).0.len() <= u32::MAX by {}
    lemma_parse_index_block(d, Seq::empty());
    assert(ib + Seq::<u8>::empty() =~= ib);
    assert(index_entries(d) + Seq::<(Seq<u8>, u64)>::empty() =~= index_entries(d));
    lemma_index_entries(d);
    let ix = index_entries(d);
    let keys = index_keys(ix);
    assert forall|i: int, j: int| 0 <= i < j < keys.len() implies lex_lt(#[trigger] keys[i], #[trigger] keys[j]) by {
        assert(keys[i] == d[i].0 && keys[j] == d[j].0);
    }
    lemma_bsearch_sorted(keys, key, 0, ix.len() as int);
    lemma_entries_map(d);
    match bsearch(keys, key, 0, ix.len() as int) {
        Some(i) => {
            assert(keys[i] == d[i].0);
            lemma_read_entry(d, i);
            assert(entries_map(d).contains_key(d[i].0));
            assert(entries_map(d)[d[i].0] == d[i].1);
        },
        None => {
            if entries_map(d).contains_key(key) {
                let i = choose|i: int| 0 <= i < d.len() && d[i].0 == key;
                assert(keys[i] == key);
            }
        },
    }
}

} // verus!
