//! The store over a whole history of operations: whatever sequence of puts,
//! deletes, flushes, compactions and reopenings it goes through, a key reads
//! as its newest put or delete left it.

use vstd::prelude::*;
use crate::store::engine::{
    absorb_tables, file_views, COMPACTED_TABLE_INDEX, files_of, is_table_order, law_compaction_preserves_reads,
    law_flush_preserves_reads, law_install_keeps_order, law_read_after_delete, law_read_after_put,
    law_reopen_preserves_reads, lemma_reopen_same_tables, live_entries, newest_first, next_index,
    opened_as, table_indices, written_from, SynapseStore,
};
use crate::store::memtable::{entries_map, keys_sorted, replay};
use crate::store::sstable::{entries_fit, index_views, table_bytes, table_index, EntryView};
use crate::store::wal::{log_bytes, op_fits, OpView};
use crate::store::StoreError;

verus! {

/// One step in the life of a store.
pub enum StoreEvent {
    /// `put` of a key and its value.
    Put(Seq<u8>, Seq<u8>),
    /// `delete` of a key.
    Delete(Seq<u8>),
    /// `flush` wrote out the in-memory table, whose entries are `d`, and the
    /// file was installed under the index that `flush` chose.
    Flush(Seq<EntryView>),
    /// `compact` wrote the merged entries `d` of all tables, the tables were
    /// cleared and the file was installed under `COMPACTED_TABLE_INDEX`.
    Compact(Seq<EntryView>),
    /// The store was opened again from its table files (taken in the order
    /// `perm`) and from a log that holds `ops`, the operations since the
    /// last flush.
    Reopen(Seq<OpView>, Seq<(u32, Vec<u8>)>, Seq<usize>),
}

/// `n` is what the store `o` becomes through `ev`, as the operations'
/// contracts state it.
pub open spec fn store_step(o: SynapseStore, n: SynapseStore, ev: StoreEvent) -> bool {
    match ev {
        StoreEvent::Put(k, v) => {
            &&& n.mem().view_map() == o.mem().view_map().insert(k, Some(v))
            &&& n.tables() == o.tables()
        },
        StoreEvent::Delete(k) => {
            &&& n.mem().view_map() == o.mem().view_map().insert(k, None)
            &&& n.tables() == o.tables()
        },
        StoreEvent::Flush(d) => {
            &&& keys_sorted(d)
            &&& entries_fit(d)
            &&& entries_map(d) == o.mem().view_map()
            &&& n.mem().view_map() == Map::<Seq<u8>, Option<Seq<u8>>>::empty()
            &&& n.tables().len() == o.tables().len() + 1
            &&& n.tables().drop_first() == o.tables()
            &&& n.tables()[0].0 == next_index(o.tables())
            &&& n.tables()[0].1.contents@ == table_bytes(d)
            &&& table_index(table_bytes(d)) == Ok::<Seq<(Seq<u8>, u64)>, StoreError>(
                index_views(n.tables()[0].1.index@),
            )
        },
        StoreEvent::Compact(d) => {
            &&& absorb_tables(o.tables()) is Ok
            &&& entries_map(d) == live_entries(absorb_tables(o.tables())->Ok_0)
            &&& keys_sorted(d)
            &&& entries_fit(d)
            &&& n.mem() == o.mem()
            &&& n.tables().len() == 1
            &&& n.tables()[0].0 == COMPACTED_TABLE_INDEX
            &&& n.tables()[0].1.contents@ == table_bytes(d)
            &&& table_index(table_bytes(d)) == Ok::<Seq<(Seq<u8>, u64)>, StoreError>(
                index_views(n.tables()[0].1.index@),
            )
        },
        StoreEvent::Reopen(ops, files, perm) => {
            &&& forall|i: int| 0 <= i < ops.len() ==> op_fits(#[trigger] ops[i])
            &&& o.mem().view_map() == replay(ops)
            &&& file_views(files) == files_of(o.tables())
            &&& is_table_order(table_indices(files), perm)
            &&& opened_as(files, log_bytes(ops), perm, Ok::<SynapseStore, StoreError>(n))
        },
    }
}

/// `states` is a run of the store through `evs`: each state follows from the
/// one before by the event between them.
pub open spec fn is_history(states: Seq<SynapseStore>, evs: Seq<StoreEvent>) -> bool {
    &&& states.len() == evs.len() + 1
    &&& forall|i: int| 0 <= i < evs.len() ==> store_step(states[i], states[i + 1], #[trigger] evs[i])
}

/// What the puts and deletes of `evs`, in order, leave each written key
/// holding: the value of its last put, or `None` after a delete.
pub open spec fn written(evs: Seq<StoreEvent>) -> Map<Seq<u8>, Option<Seq<u8>>>
    decreases evs.len(),
{
    if evs.len() == 0 {
        Map::empty()
    } else {
        let m = written(evs.drop_last());
        match evs.last() {
            StoreEvent::Put(k, v) => m.insert(k, Some(v)),
            StoreEvent::Delete(k) => m.insert(k, None),
            _ => m,
        }
    }
}

/// The value that `key` holds after `evs`: nothing when it was never written.
pub open spec fn written_value(evs: Seq<StoreEvent>, key: Seq<u8>) -> Option<Seq<u8>> {
    if written(evs).contains_key(key) {
        written(evs)[key]
    } else {
        None
    }
}

/// Along a run that starts without tables, the tables stay newest first and
/// each was written from entries sorted by key.
proof fn lemma_history_shape(states: Seq<SynapseStore>, evs: Seq<StoreEvent>, i: int) -> (ds: Seq<
    Seq<EntryView>,
>)
    requires
        is_history(states, evs),
        states[0].tables().len() == 0,
        0 <= i <= evs.len(),
    ensures
        written_from(states[i].tables(), ds),
        newest_first(states[i].tables()),
    decreases i,
{
    if i == 0 {
        Seq::empty()
    } else {
        let ds = lemma_history_shape(states, evs, i - 1);
        let o = states[i - 1];
        let n = states[i];
        let ev = evs[i - 1];
        assert(store_step(o, n, ev));
        match ev {
            StoreEvent::Put(k, v) => ds,
            StoreEvent::Delete(k) => ds,
            StoreEvent::Flush(d) => {
                law_install_keeps_order(o, n);
                let nds = seq![d] + ds;
                let nt = n.tables();
                assert forall|j: int| 0 <= j < nds.len() implies {
                    &&& keys_sorted(#[trigger] nds[j])
                    &&& entries_fit(nds[j])
                    &&& nt[j].1.contents@ == table_bytes(nds[j])
                    &&& table_index(table_bytes(nds[j])) == Ok::<Seq<(Seq<u8>, u64)>, StoreError>(
                        index_views(nt[j].1.index@),
                    )
                } by {
                    if j > 0 {
                        assert(nds[j] == ds[j - 1]);
                        assert(nt[j] == nt.drop_first()[j - 1]);
                    }
                }
                nds
            },
            StoreEvent::Compact(d) => {
                let nds = seq![d];
                assert(nds[0] == d);
                nds
            },
            StoreEvent::Reopen(ops, files, perm) => {
                lemma_reopen_same_tables(o, files, log_bytes(ops), perm, n);
                let nt = n.tables();
                let ot = o.tables();
                assert forall|j: int| 0 <= j < ds.len() implies {
                    &&& keys_sorted(#[trigger] ds[j])
                    &&& entries_fit(ds[j])
                    &&& nt[j].1.contents@ == table_bytes(ds[j])
                    &&& table_index(table_bytes(ds[j])) == Ok::<Seq<(Seq<u8>, u64)>, StoreError>(
                        index_views(nt[j].1.index@),
                    )
                } by {
                    assert(nt[j].1.contents@ == ot[j].1.contents@);
                }
                assert forall|x: int, y: int| 0 <= x < y < nt.len() implies (#[trigger] nt[x]).0
                    > (#[trigger] nt[y]).0 by {
                    assert(nt[x].0 == ot[x].0 && nt[y].0 == ot[y].0);
                }
                ds
            },
        }
    }
}

/// Along a run that starts from an empty store, each state reads every key
/// as the events so far wrote it.
proof fn lemma_history_reads(states: Seq<SynapseStore>, evs: Seq<StoreEvent>, i: int, key: Seq<u8>)
    requires
        is_history(states, evs),
        states[0].mem().view_map() == Map::<Seq<u8>, Option<Seq<u8>>>::empty(),
        states[0].tables().len() == 0,
        0 <= i <= evs.len(),
    ensures
        states[i].lookup(key) == Ok::<Option<Seq<u8>>, StoreError>(written_value(evs.take(i), key)),
    decreases i,
{
    if i == 0 {
        assert(evs.take(0) =~= Seq::<StoreEvent>::empty());
    } else {
        lemma_history_reads(states, evs, i - 1, key);
        let ds = lemma_history_shape(states, evs, i - 1);
        let o = states[i - 1];
        let n = states[i];
        let ev = evs[i - 1];
        assert(store_step(o, n, ev));
        assert(evs.take(i).drop_last() =~= evs.take(i - 1));
        assert(evs.take(i).last() == ev);
        match ev {
            StoreEvent::Put(k, v) => {
                law_read_after_put(o, n, k, v, key);
            },
            StoreEvent::Delete(k) => {
                law_read_after_delete(o, n, k, key);
            },
            StoreEvent::Flush(d) => {
                law_flush_preserves_reads(o, n, d, key);
            },
            StoreEvent::Compact(d) => {
                let m = absorb_tables(o.tables())->Ok_0;
                law_compaction_preserves_reads(o, n, ds, m, d, key);
            },
            StoreEvent::Reopen(ops, files, perm) => {
                let ot = o.tables();
                assert forall|j: int| 0 <= j < ot.len() implies table_index((#[trigger] ot[j]).1.contents@)
                    == Ok::<Seq<(Seq<u8>, u64)>, StoreError>(index_views(ot[j].1.index@)) by {
                    assert(ot[j].1.contents@ == table_bytes(ds[j]));
                }
                law_reopen_preserves_reads(o, ops, files, perm, n, key);
            },
        }
    }
}

/// The newest write wins, wherever it is kept: after any run that starts
/// from an empty store, through puts, deletes, flushes, compactions and
/// reopenings, every key reads as the value of its last put, and as nothing
/// when it was last deleted or never written.
pub proof fn law_newest_write_wins(states: Seq<SynapseStore>, evs: Seq<StoreEvent>, key: Seq<u8>)
    requires
        is_history(states, evs),
        states[0].mem().view_map() == Map::<Seq<u8>, Option<Seq<u8>>>::empty(),
        states[0].tables().len() == 0,
    ensures
        states.last().lookup(key) == Ok::<Option<Seq<u8>>, StoreError>(written_value(evs, key)),
{
    lemma_history_reads(states, evs, evs.len() as int, key);
    assert(evs.take(evs.len() as int) =~= evs);
}

} // verus!
