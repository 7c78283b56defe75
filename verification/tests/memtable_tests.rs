use lsm_sql::memtable::MEMTABLE_SIZE_LIMIT;
use lsm_sql::{MemTable, StorageEntry, StorageValue};

fn keys_of(table: &MemTable) -> Vec<String> {
    table.iter().iter().map(|entry| entry.key.clone()).collect()
}

#[test]
fn memtable_starts_empty() {
    let table = MemTable::new();
    assert!(table.is_empty());
    assert!(!table.is_full());
    assert!(table.iter().is_empty());
    assert!(table.get("anything").is_none());
}

#[test]
fn memtable_keeps_last_write_per_key() {
    let mut table = MemTable::new();
    table.insert_at("b".to_string(), "1".to_string(), 10);
    table.insert_at("a".to_string(), "2".to_string(), 11);
    table.insert_at("b".to_string(), "3".to_string(), 12);
    assert_eq!(keys_of(&table), vec!["a".to_string(), "b".to_string()]);
    match table.get("b") {
        Some(StorageEntry { value: StorageValue::Present(text), timestamp, .. }) => {
            assert_eq!(text, "3");
            assert_eq!(*timestamp, 12);
        }
        _ => panic!("b must be present"),
    }
    assert!(table.get("c").is_none());
}

#[test]
fn memtable_iterates_in_ascending_key_order() {
    let mut table = MemTable::new();
    for key in ["pear", "apple", "zebra", "Zebra", "apples", "", "é"] {
        table.insert_at(key.to_string(), "v".to_string(), 1);
    }
    let mut expected: Vec<String> =
        ["pear", "apple", "zebra", "Zebra", "apples", "", "é"].iter().map(|k| k.to_string()).collect();
    expected.sort();
    assert_eq!(keys_of(&table), expected);
}

#[test]
fn memtable_delete_leaves_a_tombstone() {
    let mut table = MemTable::new();
    table.insert_at("k".to_string(), "v".to_string(), 1);
    table.delete_at("k".to_string(), 2);
    match table.get("k") {
        Some(entry) => {
            assert!(matches!(entry.value, StorageValue::Deleted));
            assert_eq!(entry.timestamp, 2);
        }
        None => panic!("a tombstone is an entry"),
    }
    assert_eq!(keys_of(&table), vec!["k".to_string()]);
}

#[test]
fn memtable_delete_of_unknown_key_is_recorded() {
    let mut table = MemTable::new();
    table.delete_at("ghost".to_string(), 7);
    assert!(matches!(table.get("ghost").map(|e| &e.value), Some(StorageValue::Deleted)));
}

#[test]
fn memtable_size_counts_key_and_value_bytes() {
    let mut table = MemTable::new();
    // one byte short of the limit: key of 4 bytes, value of the rest
    let value = "x".repeat(MEMTABLE_SIZE_LIMIT - 4 - 1);
    table.insert_at("big1".to_string(), value, 1);
    assert!(!table.is_full());
    // a tombstone weighs its key and eight bytes more; size never shrinks
    table.delete_at("k".to_string(), 2);
    assert!(table.is_full());
}

#[test]
fn memtable_size_grows_even_when_a_key_is_overwritten() {
    let mut table = MemTable::new();
    let half = "x".repeat(MEMTABLE_SIZE_LIMIT / 2);
    table.insert_at("k".to_string(), half.clone(), 1);
    assert!(!table.is_full());
    table.insert_at("k".to_string(), half, 2);
    assert!(table.is_full());
    assert_eq!(table.iter().len(), 1);
}

#[test]
fn memtable_clear_empties_entries_and_size() {
    let mut table = MemTable::new();
    table.insert_at("k".to_string(), "x".repeat(MEMTABLE_SIZE_LIMIT), 1);
    assert!(table.is_full());
    table.clear();
    assert!(table.is_empty());
    assert!(!table.is_full());
    assert!(table.get("k").is_none());
}

#[test]
fn memtable_insert_stamps_with_the_clock() {
    let mut table = MemTable::new();
    table.insert("k".to_string(), "v".to_string());
    table.delete("gone".to_string());
    match table.get("k") {
        Some(entry) => {
            assert!(matches!(&entry.value, StorageValue::Present(text) if text == "v"));
            // well after the year 2001, in milliseconds
            assert!(entry.timestamp > 1_000_000_000_000);
        }
        None => panic!("k must be present"),
    }
    assert!(matches!(table.get("gone").map(|e| &e.value), Some(StorageValue::Deleted)));
}

#[test]
fn entry_line_has_the_documented_shape() {
    let entry = StorageEntry::present("k\"1".to_string(), "v\n".to_string(), 5);
    assert_eq!(
        entry.to_line(),
        "{\"key\":\"k\\\"1\",\"value\":{\"Present\":\"v\\n\"},\"timestamp\":5}"
    );
    let gone = StorageEntry::deleted("k".to_string(), 1234567890123);
    assert_eq!(gone.to_line(), "{\"key\":\"k\",\"value\":\"Deleted\",\"timestamp\":1234567890123}");
    let zero = StorageEntry::deleted("".to_string(), 0);
    assert_eq!(zero.to_line(), "{\"key\":\"\",\"value\":\"Deleted\",\"timestamp\":0}");
}

#[test]
fn entry_line_is_json_that_holds_the_entry() {
    let entry = StorageEntry::present("row_1".to_string(), "{\"a\":\"b\"}".to_string(), u64::MAX);
    let parsed: serde_json::Value = serde_json::from_str(&entry.to_line()).unwrap();
    assert_eq!(parsed["key"].as_str(), Some("row_1"));
    assert_eq!(parsed["value"]["Present"].as_str(), Some("{\"a\":\"b\"}"));
    assert_eq!(parsed["timestamp"].as_u64(), Some(u64::MAX));
}

#[test]
fn serialized_size_is_the_text_or_eight() {
    assert_eq!(StorageValue::Present("héllo".to_string()).serialized_size(), 6);
    assert_eq!(StorageValue::Present(String::new()).serialized_size(), 0);
    assert_eq!(StorageValue::Deleted.serialized_size(), 8);
}
