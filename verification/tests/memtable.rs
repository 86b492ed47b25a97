use std::collections::BTreeMap;

use bloomy::storage::memtable::{MemTable, SkipList};
use bloomy::{KeyRange, KeyValue};

#[test]
fn search_returns_inserted_value() {
    let mut list = SkipList::new();

    list.insert(b"bravo".to_vec(), b"2".to_vec());
    list.insert(b"alpha".to_vec(), b"1".to_vec());

    assert_eq!(list.search(b"alpha"), Some(&b"1".to_vec()));
    assert_eq!(list.search(b"bravo"), Some(&b"2".to_vec()));
    assert_eq!(list.search(b"charlie"), None);
}

#[test]
fn insert_replaces_existing_key() {
    let mut list = SkipList::new();

    list.insert(b"alpha".to_vec(), b"old".to_vec());
    list.insert(b"alpha".to_vec(), b"new".to_vec());

    assert_eq!(list.len(), 1);
    assert_eq!(list.search(b"alpha"), Some(&b"new".to_vec()));
}

#[test]
fn delete_unlinks_key() {
    let mut list = SkipList::new();

    list.insert(b"alpha".to_vec(), b"1".to_vec());
    list.insert(b"bravo".to_vec(), b"2".to_vec());
    list.insert(b"charlie".to_vec(), b"3".to_vec());

    assert_eq!(list.delete(b"bravo"), Some(b"2".to_vec()));

    assert_eq!(list.len(), 2);
    assert_eq!(list.search(b"bravo"), None);
    assert_eq!(list.search(b"alpha"), Some(&b"1".to_vec()));
    assert_eq!(list.search(b"charlie"), Some(&b"3".to_vec()));
}

#[test]
fn scan_returns_sorted_exclusive_end_range() {
    let mut table = MemTable::new();

    table.put(b"delta".to_vec(), b"4".to_vec());
    table.put(b"alpha".to_vec(), b"1".to_vec());
    table.put(b"charlie".to_vec(), b"3".to_vec());
    table.put(b"bravo".to_vec(), b"2".to_vec());

    let entries = table.scan(KeyRange::between(b"bravo".to_vec(), b"delta".to_vec()));

    assert_eq!(
        entries,
        vec![
            KeyValue {
                key: b"bravo".to_vec(),
                value: b"2".to_vec(),
            },
            KeyValue {
                key: b"charlie".to_vec(),
                value: b"3".to_vec(),
            },
        ]
    );
}

#[test]
fn new_list_is_empty() {
    let list = SkipList::new();
    assert!(list.is_empty());
    assert_eq!(list.len(), 0);
    assert_eq!(list.search(b""), None);
    let table = MemTable::default();
    assert!(table.is_empty());
    assert_eq!(table.scan(KeyRange::all()), Vec::new());
}

#[test]
fn delete_missing_key_returns_none() {
    let mut list = SkipList::new();
    assert_eq!(list.delete(b"alpha"), None);
    list.insert(b"alpha".to_vec(), b"1".to_vec());
    assert_eq!(list.delete(b"alp"), None);
    assert_eq!(list.delete(b"alphaa"), None);
    assert_eq!(list.len(), 1);
    assert_eq!(list.delete(b"alpha"), Some(b"1".to_vec()));
    assert_eq!(list.delete(b"alpha"), None);
    assert!(list.is_empty());
}

#[test]
fn prefix_keys_sort_before_longer_keys() {
    let mut table = MemTable::new();
    table.put(b"ab".to_vec(), b"2".to_vec());
    table.put(b"a".to_vec(), b"1".to_vec());
    table.put(b"b".to_vec(), b"4".to_vec());
    table.put(b"abc".to_vec(), b"3".to_vec());
    table.put(vec![0xff], b"5".to_vec());
    table.put(Vec::new(), b"0".to_vec());
    let keys: Vec<Vec<u8>> = table.scan(KeyRange::all()).into_iter().map(|kv| kv.key).collect();
    assert_eq!(
        keys,
        vec![Vec::new(), b"a".to_vec(), b"ab".to_vec(), b"abc".to_vec(), b"b".to_vec(), vec![0xff]]
    );
}

#[test]
fn scan_from_start_is_inclusive_and_open_ended() {
    let mut table = MemTable::new();
    for (k, v) in [("delta", "4"), ("alpha", "1"), ("charlie", "3"), ("bravo", "2")] {
        table.put(k.as_bytes().to_vec(), v.as_bytes().to_vec());
    }
    let keys: Vec<Vec<u8>> = table
        .scan(KeyRange::from(b"bravo".to_vec()))
        .into_iter()
        .map(|kv| kv.key)
        .collect();
    assert_eq!(keys, vec![b"bravo".to_vec(), b"charlie".to_vec(), b"delta".to_vec()]);
    let between_missing = table.scan(KeyRange::between(b"b".to_vec(), b"c".to_vec()));
    assert_eq!(between_missing.len(), 1);
    assert_eq!(between_missing[0].key, b"bravo".to_vec());
    let empty = table.scan(KeyRange::between(b"delta".to_vec(), b"alpha".to_vec()));
    assert!(empty.is_empty());
    let up_to = table.scan(KeyRange { start: None, end: Some(b"charlie".to_vec()) });
    assert_eq!(up_to.len(), 2);
}

#[test]
fn many_operations_match_a_sorted_map() {
    let mut table = MemTable::new();
    let mut model: BTreeMap<Vec<u8>, Vec<u8>> = BTreeMap::new();
    let mut state: u64 = 12345;
    for step in 0..3000u64 {
        state = state.wrapping_mul(6364136223846793005).wrapping_add(1442695040888963407);
        let key = format!("k{:03}", (state >> 33) % 200).into_bytes();
        if (state >> 20) % 3 == 0 {
            assert_eq!(table.delete(&key), model.remove(&key));
        } else {
            let value = format!("v{step}").into_bytes();
            table.put(key.clone(), value.clone());
            model.insert(key, value);
        }
        assert_eq!(table.len(), model.len());
    }
    for (k, v) in &model {
        assert_eq!(table.get(k), Some(v));
    }
    let all: Vec<(Vec<u8>, Vec<u8>)> =
        table.scan(KeyRange::all()).into_iter().map(|kv| (kv.key, kv.value)).collect();
    let expected: Vec<(Vec<u8>, Vec<u8>)> = model.into_iter().collect();
    assert_eq!(all, expected);
}

#[test]
fn delete_undoes_put_of_a_new_key() {
    let mut table = MemTable::new();
    table.put(b"alpha".to_vec(), b"1".to_vec());
    table.put(b"charlie".to_vec(), b"3".to_vec());
    let before = table.scan(KeyRange::all());
    table.put(b"bravo".to_vec(), b"2".to_vec());
    assert_eq!(table.len(), 3);
    assert_eq!(table.delete(b"bravo"), Some(b"2".to_vec()));
    assert_eq!(table.scan(KeyRange::all()), before);
    assert_eq!(table.len(), 2);
}
