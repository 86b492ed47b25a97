use bloomy::engine::lsm::{apply_record, recover_wal, replay_wal, LsmEngine, WalStart};
use bloomy::storage::memtable::MemTable;
use bloomy::storage::wal::{encode_record, write_header, write_record, WalRecord, FILE_HEADER_BYTES};
use bloomy::{Bloomy, KeyRange, KeyValue, KeyValueStore};

#[test]
fn lsm_put_then_get_returns_value() {
    let mut engine = LsmEngine::new();

    engine.put(b"hello".to_vec(), b"world".to_vec()).unwrap();

    assert_eq!(engine.get(b"hello").unwrap(), Some(b"world".to_vec()));
}

#[test]
fn lsm_put_existing_key_replaces_value() {
    let mut engine = LsmEngine::new();

    engine.put(b"hello".to_vec(), b"old".to_vec()).unwrap();
    engine.put(b"hello".to_vec(), b"new".to_vec()).unwrap();

    assert_eq!(engine.get(b"hello").unwrap(), Some(b"new".to_vec()));
}

#[test]
fn lsm_delete_removes_value_from_active_memtable() {
    let mut engine = LsmEngine::new();

    engine.put(b"hello".to_vec(), b"world".to_vec()).unwrap();
    engine.delete(b"hello").unwrap();

    assert_eq!(engine.get(b"hello").unwrap(), None);
}

#[test]
fn lsm_scan_returns_sorted_memtable_entries() {
    let mut engine = LsmEngine::new();

    engine.put(b"delta".to_vec(), b"4".to_vec()).unwrap();
    engine.put(b"alpha".to_vec(), b"1".to_vec()).unwrap();
    engine.put(b"charlie".to_vec(), b"3".to_vec()).unwrap();
    engine.put(b"bravo".to_vec(), b"2".to_vec()).unwrap();

    let entries = engine
        .scan(KeyRange::between(b"bravo".to_vec(), b"delta".to_vec()))
        .unwrap();

    assert_eq!(
        entries,
        vec![
            KeyValue {
                key: b"bravo".to_vec(),
                value: b"2".to_vec(),
            },
            KeyValue {
                key: b"charlie".to_vec(),
                value: b"3".to_vec(),
            },
        ]
    );
}

fn log_of(records: &[WalRecord]) -> Vec<u8> {
    let mut log = Vec::new();
    write_header(&mut log);
    for record in records {
        write_record(&mut log, record).unwrap();
    }
    log
}

#[test]
fn replay_applies_records_in_order() {
    let log = log_of(&[
        WalRecord::Put { key: b"alpha".to_vec(), value: b"1".to_vec() },
        WalRecord::Put { key: b"bravo".to_vec(), value: b"2".to_vec() },
        WalRecord::Put { key: b"alpha".to_vec(), value: b"3".to_vec() },
        WalRecord::Delete { key: b"bravo".to_vec() },
    ]);
    let mut memtable = MemTable::new();
    let end = replay_wal(&log, &mut memtable).unwrap();
    assert_eq!(end, log.len());
    assert_eq!(memtable.get(b"alpha"), Some(&b"3".to_vec()));
    assert_eq!(memtable.get(b"bravo"), None);
    assert_eq!(memtable.len(), 1);
}

#[test]
fn replay_stops_before_a_partial_tail() {
    let mut log = log_of(&[WalRecord::Put { key: b"alpha".to_vec(), value: b"1".to_vec() }]);
    let valid = log.len();
    let mut partial = encode_record(&WalRecord::Put { key: b"bravo".to_vec(), value: b"2".to_vec() }).unwrap();
    partial.pop();
    log.extend_from_slice(&partial);
    let mut memtable = MemTable::new();
    assert_eq!(replay_wal(&log, &mut memtable).unwrap(), valid);
    assert_eq!(memtable.get(b"alpha"), Some(&b"1".to_vec()));
    assert_eq!(memtable.get(b"bravo"), None);
}

#[test]
fn replay_of_header_only_log_is_empty() {
    let log = log_of(&[]);
    let mut memtable = MemTable::new();
    assert_eq!(replay_wal(&log, &mut memtable).unwrap(), FILE_HEADER_BYTES);
    assert!(memtable.is_empty());
}

#[test]
fn replay_reports_corruption() {
    let mut log = log_of(&[WalRecord::Put { key: b"alpha".to_vec(), value: b"1".to_vec() }]);
    let last = log.len() - 1;
    log[last] ^= 0x01;
    let mut memtable = MemTable::new();
    let error = replay_wal(&log, &mut memtable).unwrap_err();
    assert!(error.message().contains("checksum mismatch"));
    let mut memtable = MemTable::new();
    assert!(replay_wal(b"NOTAWAL!\x01\x00", &mut memtable).is_err());
}

#[test]
fn apply_record_puts_and_deletes() {
    let mut memtable = MemTable::new();
    apply_record(&mut memtable, WalRecord::Put { key: b"k".to_vec(), value: b"v".to_vec() });
    assert_eq!(memtable.get(b"k"), Some(&b"v".to_vec()));
    apply_record(&mut memtable, WalRecord::Delete { key: b"k".to_vec() });
    assert_eq!(memtable.get(b"k"), None);
}

#[test]
fn bloomy_store_round_trip() {
    let mut store = Bloomy::from_memtable(MemTable::new());
    store.put(b"b".to_vec(), b"2".to_vec()).unwrap();
    store.put(b"a".to_vec(), b"1".to_vec()).unwrap();
    assert_eq!(store.get(b"a").unwrap(), Some(b"1".to_vec()));
    store.delete(b"a").unwrap();
    assert_eq!(store.get(b"a").unwrap(), None);
    assert_eq!(store.scan(KeyRange::all()).unwrap().len(), 1);
    store.close().unwrap();
}

#[test]
fn default_engine_is_empty() {
    let engine = LsmEngine::default();
    assert_eq!(engine.scan(KeyRange::all()).unwrap(), Vec::new());
    assert_eq!(engine.get(b"x").unwrap(), None);
}

#[test]
fn store_from_recovered_memtable_holds_its_entries() {
    let mut memtable = MemTable::new();
    memtable.put(b"alpha".to_vec(), b"1".to_vec());
    let store = Bloomy::from_memtable(memtable);
    assert_eq!(store.get(b"alpha").unwrap(), Some(b"1".to_vec()));
    assert_eq!(store.get(b"bravo").unwrap(), None);
}

#[test]
fn recover_empty_log_starts_fresh_with_a_header() {
    let (memtable, start) = recover_wal(&[]).unwrap();
    assert!(memtable.is_empty());
    let mut header = Vec::new();
    write_header(&mut header);
    match start {
        WalStart::Fresh { header: bytes } => assert_eq!(bytes, header),
        WalStart::Recovered { .. } => panic!("an empty log starts fresh"),
    }
}

#[test]
fn recover_replays_and_cuts_partial_tail() {
    let mut log = log_of(&[
        WalRecord::Put { key: b"alpha".to_vec(), value: b"1".to_vec() },
        WalRecord::Put { key: b"bravo".to_vec(), value: b"2".to_vec() },
    ]);
    let valid = log.len();
    let partial = encode_record(&WalRecord::Put { key: b"charlie".to_vec(), value: b"3".to_vec() }).unwrap();
    log.extend_from_slice(&partial[..5]);
    let (memtable, start) = recover_wal(&log).unwrap();
    assert_eq!(memtable.get(b"alpha"), Some(&b"1".to_vec()));
    assert_eq!(memtable.get(b"bravo"), Some(&b"2".to_vec()));
    assert_eq!(memtable.get(b"charlie"), None);
    match start {
        WalStart::Recovered { valid_len } => assert_eq!(valid_len, valid),
        WalStart::Fresh { .. } => panic!("a written log is recovered"),
    }
}

#[test]
fn recover_reports_a_corrupt_log() {
    assert!(recover_wal(b"NOTAWAL!\x01\x00").is_err());
    assert!(recover_wal(b"BLO").is_err());
}

#[test]
fn reopen_sees_last_operation_per_key() {
    let log = log_of(&[
        WalRecord::Put { key: b"alpha".to_vec(), value: b"1".to_vec() },
        WalRecord::Put { key: b"bravo".to_vec(), value: b"2".to_vec() },
        WalRecord::Delete { key: b"alpha".to_vec() },
        WalRecord::Put { key: b"bravo".to_vec(), value: b"3".to_vec() },
        WalRecord::Delete { key: b"charlie".to_vec() },
        WalRecord::Put { key: b"charlie".to_vec(), value: b"4".to_vec() },
    ]);
    let (memtable, _) = recover_wal(&log).unwrap();
    let store = Bloomy::from_memtable(memtable);
    assert_eq!(store.get(b"alpha").unwrap(), None);
    assert_eq!(store.get(b"bravo").unwrap(), Some(b"3".to_vec()));
    assert_eq!(store.get(b"charlie").unwrap(), Some(b"4".to_vec()));
    assert_eq!(store.get(b"delta").unwrap(), None);
}

#[test]
fn last_operation_wins_in_memory() {
    let mut memtable = MemTable::new();
    apply_record(&mut memtable, WalRecord::Put { key: b"k".to_vec(), value: b"1".to_vec() });
    apply_record(&mut memtable, WalRecord::Delete { key: b"k".to_vec() });
    apply_record(&mut memtable, WalRecord::Put { key: b"k".to_vec(), value: b"2".to_vec() });
    apply_record(&mut memtable, WalRecord::Put { key: b"j".to_vec(), value: b"1".to_vec() });
    apply_record(&mut memtable, WalRecord::Delete { key: b"j".to_vec() });
    assert_eq!(memtable.get(b"k"), Some(&b"2".to_vec()));
    assert_eq!(memtable.get(b"j"), None);
}
