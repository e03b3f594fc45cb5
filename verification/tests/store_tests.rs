use synapse::store::engine::{SynapseStore, COMPACTED_TABLE_INDEX};
use synapse::store::files::{compaction_file_name, parse_u32, table_file_index, table_file_name};
use synapse::store::memtable::MemTable;
use synapse::store::sstable::SSTable;
use synapse::store::wal::{decode_log, encode_delete, encode_put, LogOp};
use synapse::store::{DataFault, StoreError};

fn log_of(records: &[Vec<u8>]) -> Vec<u8> {
    let mut log = Vec::new();
    for r in records {
        log.extend_from_slice(r);
    }
    log
}

#[test]
fn wal_records_have_the_documented_layout() {
    assert_eq!(encode_put(b"ab", b"xyz"), vec![1, 2, 0, 0, 0, 3, 0, 0, 0, b'a', b'b', b'x', b'y', b'z']);
    assert_eq!(encode_delete(b"k"), vec![2, 1, 0, 0, 0, b'k']);
}

#[test]
fn wal_reads_back_what_was_logged() {
    let log = log_of(&[encode_put(b"key_a", b"value_a"), encode_delete(b"key_a"), encode_put(b"", b"")]);
    let ops = decode_log(&log).unwrap();
    assert_eq!(ops.len(), 3);
    match &ops[0] {
        LogOp::Put(k, v) => {
            assert_eq!(k, b"key_a");
            assert_eq!(v, b"value_a");
        }
        _ => panic!("expected a put"),
    }
    match &ops[1] {
        LogOp::Delete(k) => assert_eq!(k, b"key_a"),
        _ => panic!("expected a delete"),
    }
    assert!(decode_log(&[]).unwrap().is_empty());
}

#[test]
fn wal_rejects_bad_records() {
    assert_eq!(decode_log(&[7]).unwrap_err(), StoreError::InvalidData(DataFault::InvalidWalOpCode));
    let mut cut = encode_put(b"key", b"value");
    cut.pop();
    assert_eq!(decode_log(&cut).unwrap_err(), StoreError::UnexpectedEof);
    assert_eq!(decode_log(&[2, 1, 0]).unwrap_err(), StoreError::UnexpectedEof);
}

#[test]
fn memtable_replays_its_log() {
    let log = log_of(&[
        encode_put(b"b", b"2"),
        encode_put(b"a", b"1"),
        encode_delete(b"b"),
        encode_put(b"c", b"3"),
    ]);
    let m = MemTable::open(&log).unwrap();
    assert_eq!(m.get(b"a"), Some(&Some(b"1".to_vec())));
    assert_eq!(m.get(b"b"), Some(&None));
    assert_eq!(m.get(b"z"), None);
    assert_eq!(m.size_bytes, 2 + 2 + 1 + 2);
    let keys: Vec<Vec<u8>> = m.entries.iter().map(|e| e.0.clone()).collect();
    assert_eq!(keys, vec![b"a".to_vec(), b"b".to_vec(), b"c".to_vec()]);
    assert!(MemTable::open(&[9]).is_err());
}

#[test]
fn sstable_reads_back_its_entries() {
    let data = vec![
        (b"apple".to_vec(), Some(b"red".to_vec())),
        (b"banana".to_vec(), None),
        (b"cherry".to_vec(), Some(b"".to_vec())),
    ];
    let bytes = SSTable::write_new(&data);
    // data block: 8+5+3, 8+6, 8+6+0 = 44 bytes; index: 3 records of 12 + key.
    assert_eq!(bytes.len(), 44 + (12 + 5) + (12 + 6) + (12 + 6) + 8);
    assert_eq!(&bytes[bytes.len() - 8..], &44u64.to_le_bytes());
    assert!(SSTable::footer_in_range(&bytes));
    let t = SSTable::open(bytes).unwrap();
    assert_eq!(t.index.len(), 3);
    assert_eq!(t.index[1].offset, 16);
    assert_eq!(t.get(b"apple").unwrap(), Some(Some(b"red".to_vec())));
    assert_eq!(t.get(b"banana").unwrap(), Some(None));
    assert_eq!(t.get(b"cherry").unwrap(), Some(Some(Vec::new())));
    assert_eq!(t.get(b"durian").unwrap(), None);
    assert_eq!(t.get(b"").unwrap(), None);
}

#[test]
fn sstable_rejects_bad_files() {
    assert_eq!(SSTable::open(vec![1, 2, 3]).err(), Some(StoreError::InvalidData(DataFault::TableTooSmall)));
    // An index record that claims a 100-byte key in a 12-byte index block.
    let mut bytes = vec![100, 0, 0, 0, 0, 0, 0, 0, 0, 0, 0, 0];
    bytes.extend_from_slice(&0u64.to_le_bytes());
    assert_eq!(SSTable::open(bytes).err(), Some(StoreError::InvalidData(DataFault::CorruptedIndex)));
    let mut far = vec![0u8; 4];
    far.extend_from_slice(&100u64.to_le_bytes());
    assert!(!SSTable::footer_in_range(&far));
}

#[test]
fn store_lifecycle_over_bytes() {
    // 1. Open an empty store.
    let mut store = SynapseStore::open(Vec::new(), &[]).unwrap();
    let mut log: Vec<u8> = Vec::new();

    // 2. Put and get.
    log.extend_from_slice(&encode_put(b"key_a", b"value_a"));
    store.put(b"key_a", b"value_a");
    log.extend_from_slice(&encode_put(b"key_b", b"value_b"));
    store.put(b"key_b", b"value_b");
    assert_eq!(store.get(b"key_a").unwrap(), Some(b"value_a".to_vec()));
    assert_eq!(store.get(b"key_b").unwrap(), Some(b"value_b".to_vec()));
    assert_eq!(store.get(b"key_c").unwrap(), None);

    // 3. Delete.
    log.extend_from_slice(&encode_delete(b"key_a"));
    assert!(!store.delete(b"key_a"));
    assert_eq!(store.get(b"key_a").unwrap(), None);

    // 4. Flush: the table file holds the in-memory entries.
    log.extend_from_slice(&encode_put(b"key_c", b"value_c"));
    store.put(b"key_c", b"value_c");
    assert_eq!(store.next_table_index(), 1);
    let (idx, table) = store.flush().unwrap();
    assert_eq!(idx, 1);
    log.clear();
    assert_eq!(store.memtable_size(), 0);
    assert!(store.flush().is_none());
    store.install_table(idx, table.clone()).unwrap();
    assert_eq!(store.get(b"key_c").unwrap(), Some(b"value_c".to_vec()));
    assert_eq!(store.get(b"key_a").unwrap(), None); // the deletion still masks it

    // 5. Reopen from the table files and the (empty) log.
    let mut store = SynapseStore::open(vec![(idx, table)], &log).unwrap();
    assert_eq!(store.get(b"key_c").unwrap(), Some(b"value_c".to_vec()));
    assert_eq!(store.get(b"key_b").unwrap(), Some(b"value_b".to_vec()));
    assert_eq!(store.get(b"key_a").unwrap(), None);

    // 6. A second table overrides the first; compaction keeps the newest entries.
    store.put(b"key_c", b"value_c_updated");
    let (idx2, table2) = store.flush().unwrap();
    assert_eq!(idx2, 2);
    store.install_table(idx2, table2).unwrap();
    assert_eq!(store.get(b"key_c").unwrap(), Some(b"value_c_updated".to_vec()));

    let compacted = store.compact().unwrap().unwrap();
    let old = store.clear_tables();
    assert_eq!(old, vec![2, 1]);
    store.install_table(1, compacted.clone()).unwrap();
    assert_eq!(store.get(b"key_c").unwrap(), Some(b"value_c_updated".to_vec()));
    assert_eq!(store.get(b"key_b").unwrap(), Some(b"value_b".to_vec()));
    assert_eq!(store.get(b"key_a").unwrap(), None);
    // The deletion of key_a was dropped from the compacted table.
    let t = SSTable::open(compacted).unwrap();
    assert_eq!(t.index.len(), 2);
    assert_eq!(t.get(b"key_a").unwrap(), None);
    assert_eq!(store.compact().unwrap(), None);
}

#[test]
fn store_reopens_tables_newest_first_and_replays_the_log() {
    let t1 = SSTable::write_new(&[(b"k".to_vec(), Some(b"old".to_vec())), (b"x".to_vec(), Some(b"1".to_vec()))]);
    let t2 = SSTable::write_new(&[(b"k".to_vec(), Some(b"new".to_vec()))]);
    let log = log_of(&[encode_delete(b"x")]);
    // Table files come in any order; the larger index is newer.
    let store = SynapseStore::open(vec![(2, t2), (1, t1)], &log).unwrap();
    assert_eq!(store.get(b"k").unwrap(), Some(b"new".to_vec()));
    assert_eq!(store.get(b"x").unwrap(), None);
    assert_eq!(store.next_table_index(), 3);
    assert_eq!(SynapseStore::open(vec![(1, vec![0, 1])], &[]).err(), Some(StoreError::InvalidData(DataFault::TableTooSmall)));
    assert_eq!(SynapseStore::open(Vec::new(), &[3]).err(), Some(StoreError::InvalidData(DataFault::InvalidWalOpCode)));
}

#[test]
fn store_reports_when_a_flush_is_due() {
    let mut store = SynapseStore::open(Vec::new(), &[]).unwrap();
    let big = vec![7u8; 4 * 1024 * 1024 - 1];
    assert!(!store.put(b"", &big));
    assert!(store.put(b"k", b""));
    assert_eq!(store.memtable_size(), 4 * 1024 * 1024);
}

#[test]
fn table_files_are_named_by_index() {
    assert_eq!(table_file_name(4), "sst_00004.db");
    assert_eq!(table_file_name(123456), "sst_123456.db");
    assert_eq!(table_file_name(0), "sst_00000.db");
    assert_eq!(table_file_index("sst_00004.db"), Some(4));
    assert_eq!(table_file_index(&table_file_name(u32::MAX)), Some(u32::MAX));
    assert_eq!(table_file_index("sst_+7.db"), Some(7));
    assert_eq!(table_file_index("sst_.db"), None);
    assert_eq!(table_file_index("sst_4294967296.db"), None);
    assert_eq!(table_file_index("sst_x1.db"), None);
    assert_eq!(table_file_index("sst_compaction.tmp"), None);
    assert_eq!(table_file_index("wal.log"), None);
    assert_eq!(parse_u32("0042"), Some(42));
    assert_eq!(parse_u32("+"), None);
    assert_eq!(parse_u32("-1"), None);
    assert_eq!(parse_u32(""), None);
    assert_eq!(parse_u32(" 1"), None);
}

#[test]
fn store_reads_the_newest_write_across_flush_compaction_and_reopen() {
    let mut store = SynapseStore::open(Vec::new(), &[]).unwrap();
    store.put(b"a", b"1");
    store.put(b"b", b"1");
    let (i1, t1) = store.flush().unwrap();
    store.install_table(i1, t1.clone()).unwrap();
    store.put(b"a", b"2");
    store.delete(b"b");
    store.put(b"c", b"3");
    let (i2, t2) = store.flush().unwrap();
    store.install_table(i2, t2.clone()).unwrap();
    // Written since the last flush, so only in the log.
    store.put(b"c", b"4");
    store.delete(b"a");
    let log = log_of(&[encode_put(b"c", b"4"), encode_delete(b"a")]);
    let expect = |s: &SynapseStore| {
        assert_eq!(s.get(b"a").unwrap(), None);
        assert_eq!(s.get(b"b").unwrap(), None);
        assert_eq!(s.get(b"c").unwrap(), Some(b"4".to_vec()));
        assert_eq!(s.get(b"d").unwrap(), None);
    };
    expect(&store);
    let mut reopened = SynapseStore::open(vec![(i1, t1), (i2, t2)], &log).unwrap();
    expect(&reopened);
    let merged = reopened.compact().unwrap().unwrap();
    assert_eq!(reopened.clear_tables(), vec![2, 1]);
    reopened.install_table(1, merged).unwrap();
    expect(&reopened);
    let (i3, t3) = reopened.flush().unwrap();
    assert_eq!(i3, 2);
    reopened.install_table(i3, t3).unwrap();
    expect(&reopened);
}

#[test]
fn compaction_writes_a_file_that_is_no_table() {
    assert_eq!(compaction_file_name(), "sst_compaction.tmp");
    assert_eq!(table_file_index(&compaction_file_name()), None);
    assert_eq!(table_file_name(COMPACTED_TABLE_INDEX), "sst_00001.db");
}
