use lsm_sql::memtable::MEMTABLE_SIZE_LIMIT;
use lsm_sql::{DiskOp, LSMStorage, MemTable, SSTable, StorageEntry, StorageValue, WAL};

fn open(logged: Vec<StorageEntry>) -> LSMStorage {
    LSMStorage::new("data", "users", logged)
}

fn s(text: &str) -> String {
    text.to_string()
}

#[test]
fn sstable_new_is_empty() {
    let table = SSTable::new(s("data/users/sstable_0.log"));
    assert_eq!(table.path(), "data/users/sstable_0.log");
    assert_eq!(table.min_key(), "");
    assert_eq!(table.max_key(), "");
    assert_eq!(table.size(), 0);
    assert!(table.read_entries().is_empty());
    assert!(table.get("k").is_none());
}

#[test]
fn sstable_write_from_memtable_records_keys_and_size() {
    let mut buffer = MemTable::new();
    buffer.insert_at(s("m"), s("1"), 3);
    buffer.delete_at(s("a"), 4);
    buffer.insert_at(s("z"), s("2"), 5);
    let mut table = SSTable::new(s("run.log"));
    let op = table.write_from_memtable(&buffer);
    assert_eq!(table.min_key(), "a");
    assert_eq!(table.max_key(), "z");
    let lines = vec![
        s("{\"key\":\"a\",\"value\":\"Deleted\",\"timestamp\":4}"),
        s("{\"key\":\"m\",\"value\":{\"Present\":\"1\"},\"timestamp\":3}"),
        s("{\"key\":\"z\",\"value\":{\"Present\":\"2\"},\"timestamp\":5}"),
    ];
    let bytes: usize = lines.iter().map(|line| line.len() + 1).sum();
    assert_eq!(table.size(), bytes);
    match op {
        DiskOp::WriteLines { path, lines: written } => {
            assert_eq!(path, "run.log");
            assert_eq!(written, lines);
        }
        other => panic!("unexpected {:?}", other),
    }
    let keys: Vec<String> = table.read_entries().into_iter().map(|e| e.key).collect();
    assert_eq!(keys, vec![s("a"), s("m"), s("z")]);
}

#[test]
fn sstable_get_finds_tombstones_too() {
    let mut buffer = MemTable::new();
    buffer.insert_at(s("k"), s("v"), 1);
    buffer.delete_at(s("gone"), 2);
    let mut table = SSTable::new(s("run.log"));
    table.write_from_memtable(&buffer);
    assert!(matches!(table.get("k"), Some(StorageEntry { value: StorageValue::Present(v), .. }) if v == "v"));
    assert!(matches!(table.get("gone"), Some(StorageEntry { value: StorageValue::Deleted, timestamp: 2, .. })));
    assert!(table.get("other").is_none());
}

#[test]
fn sstable_of_empty_memtable_keeps_its_keys_empty() {
    let mut table = SSTable::new(s("run.log"));
    table.write_from_memtable(&MemTable::new());
    assert_eq!(table.min_key(), "");
    assert_eq!(table.max_key(), "");
    assert_eq!(table.size(), 0);
}

#[test]
fn wal_appends_in_order_and_replays_all() {
    let mut log = WAL::new("data/users", Vec::new());
    assert_eq!(log.path(), "data/users/wal.log");
    let first = log.log_insert_at("k", "v", 1);
    let second = log.log_delete_at("k", 2);
    match first {
        DiskOp::AppendLine { path, line } => {
            assert_eq!(path, "data/users/wal.log");
            assert_eq!(line, "{\"key\":\"k\",\"value\":{\"Present\":\"v\"},\"timestamp\":1}");
        }
        other => panic!("unexpected {:?}", other),
    }
    match second {
        DiskOp::AppendLine { line, .. } => {
            assert_eq!(line, "{\"key\":\"k\",\"value\":\"Deleted\",\"timestamp\":2}");
        }
        other => panic!("unexpected {:?}", other),
    }
    let replayed = log.replay();
    assert_eq!(replayed.len(), 2);
    assert!(matches!(replayed[0].value, StorageValue::Present(_)));
    assert!(matches!(replayed[1].value, StorageValue::Deleted));
}

#[test]
fn wal_clear_truncates() {
    let mut log = WAL::new("d", vec![StorageEntry::present(s("k"), s("v"), 1)]);
    assert_eq!(log.replay().len(), 1);
    match log.clear() {
        DiskOp::WriteLines { path, lines } => {
            assert_eq!(path, "d/wal.log");
            assert!(lines.is_empty());
        }
        other => panic!("unexpected {:?}", other),
    }
    assert!(log.replay().is_empty());
}

#[test]
fn wal_log_insert_stamps_with_the_clock() {
    let mut log = WAL::new("d", Vec::new());
    log.log_insert("k", "v");
    log.log_delete("k");
    let replayed = log.replay();
    assert_eq!(replayed.len(), 2);
    assert!(replayed[0].timestamp > 1_000_000_000_000);
    assert!(replayed[1].timestamp >= replayed[0].timestamp);
}

#[test]
fn engine_opens_empty() {
    let mut engine = open(Vec::new());
    assert_eq!(engine.data_dir(), "data/users");
    assert_eq!(engine.sstable_count(), 0);
    assert!(engine.get("k").is_none());
    assert!(engine.get_all().is_empty());
    assert!(engine.flush().is_empty());
    assert!(engine.close().is_empty());
    assert!(engine.compact().is_empty());
}

#[test]
fn engine_insert_then_get() {
    let mut engine = open(Vec::new());
    let ops = engine.insert_at(s("k"), s("v"), 1);
    assert_eq!(ops.len(), 1);
    match &ops[0] {
        DiskOp::AppendLine { path, line } => {
            assert_eq!(path, "data/users/wal.log");
            assert_eq!(line, "{\"key\":\"k\",\"value\":{\"Present\":\"v\"},\"timestamp\":1}");
        }
        other => panic!("unexpected {:?}", other),
    }
    assert_eq!(engine.get("k"), Some(s("v")));
    assert_eq!(engine.get("other"), None);
}

#[test]
fn engine_insert_then_delete_is_not_found_in_the_buffer() {
    let mut engine = open(Vec::new());
    engine.insert_at(s("k"), s("v"), 1);
    engine.delete_at(s("k"), 2);
    assert_eq!(engine.get("k"), None);
    assert!(engine.get_all().is_empty());
}

#[test]
fn engine_insert_then_delete_is_not_found_with_any_number_of_sstables() {
    for runs in 0..7u64 {
        let mut engine = open(Vec::new());
        for run in 0..runs {
            engine.insert_at(s("k"), format!("old{}", run), run);
            engine.insert_at(format!("other{}", run), s("x"), run);
            engine.flush();
        }
        engine.insert_at(s("k"), s("v"), 100);
        assert_eq!(engine.get("k"), Some(s("v")));
        engine.delete_at(s("k"), 101);
        assert_eq!(engine.get("k"), None, "with {} flushes before", runs);
        engine.flush();
        assert_eq!(engine.get("k"), None, "with {} flushes before, after a flush", runs);
        engine.compact();
        assert_eq!(engine.get("k"), None, "with {} flushes before, after compaction", runs);
        assert!(engine.get_all().iter().all(|(key, _)| key != "k"));
    }
}

#[test]
fn engine_tombstone_in_buffer_hides_sstable_value() {
    let mut engine = open(Vec::new());
    engine.insert_at(s("k"), s("v"), 1);
    engine.flush();
    assert_eq!(engine.sstable_count(), 1);
    engine.delete_at(s("k"), 2);
    assert_eq!(engine.get("k"), None);
}

#[test]
fn engine_newest_sstable_wins() {
    let mut engine = open(Vec::new());
    engine.insert_at(s("k"), s("one"), 1);
    engine.flush();
    engine.insert_at(s("k"), s("two"), 2);
    engine.flush();
    engine.insert_at(s("j"), s("x"), 3);
    engine.flush();
    assert_eq!(engine.sstable_count(), 3);
    assert_eq!(engine.get("k"), Some(s("two")));
    assert_eq!(engine.get_all(), vec![(s("j"), s("x")), (s("k"), s("two"))]);
}

#[test]
fn engine_get_all_is_sorted_and_omits_tombstones() {
    let mut engine = open(Vec::new());
    engine.insert_at(s("c"), s("3"), 1);
    engine.insert_at(s("a"), s("1"), 2);
    engine.flush();
    engine.insert_at(s("b"), s("2"), 3);
    engine.delete_at(s("c"), 4);
    engine.insert_at(s("d"), s("4"), 5);
    engine.flush();
    engine.delete_at(s("a"), 6);
    engine.insert_at(s("e"), s("5"), 7);
    assert_eq!(
        engine.get_all(),
        vec![(s("b"), s("2")), (s("d"), s("4")), (s("e"), s("5"))]
    );
}

#[test]
fn engine_flush_writes_next_run_and_keeps_the_log() {
    let mut engine = open(Vec::new());
    engine.insert_at(s("b"), s("2"), 1);
    engine.insert_at(s("a"), s("1"), 2);
    let ops = engine.flush();
    assert_eq!(ops.len(), 1);
    match &ops[0] {
        DiskOp::WriteLines { path, lines } => {
            assert_eq!(path, "data/users/sstable_0.log");
            assert_eq!(
                lines,
                &vec![
                    s("{\"key\":\"a\",\"value\":{\"Present\":\"1\"},\"timestamp\":2}"),
                    s("{\"key\":\"b\",\"value\":{\"Present\":\"2\"},\"timestamp\":1}"),
                ]
            );
        }
        other => panic!("unexpected {:?}", other),
    }
    assert_eq!(engine.sstable_count(), 1);
    assert_eq!(engine.wal().replay().len(), 2);
    assert_eq!(engine.get("a"), Some(s("1")));
    // nothing to flush now
    assert!(engine.flush().is_empty());
    assert_eq!(engine.sstable_count(), 1);
}

#[test]
fn engine_compacts_when_runs_exceed_the_fan_out() {
    let mut engine = open(Vec::new());
    for run in 0..3u64 {
        engine.insert_at(s("k"), format!("v{}", run), run);
        engine.insert_at(format!("only{}", run), s("x"), run);
        let ops = engine.flush();
        assert_eq!(ops.len(), 1);
    }
    assert_eq!(engine.sstable_count(), 3);
    engine.delete_at(s("only0"), 10);
    let ops = engine.flush();
    assert_eq!(engine.sstable_count(), 1);
    let paths: Vec<String> = ops
        .iter()
        .map(|op| match op {
            DiskOp::WriteLines { path, .. } => format!("write {}", path),
            DiskOp::RemoveFile { path } => format!("remove {}", path),
            other => panic!("unexpected {:?}", other),
        })
        .collect();
    assert_eq!(
        paths,
        vec![
            s("write data/users/sstable_3.log"),
            s("write data/users/sstable_compacted.log"),
            s("remove data/users/sstable_0.log"),
            s("remove data/users/sstable_1.log"),
            s("remove data/users/sstable_2.log"),
            s("remove data/users/sstable_3.log"),
        ]
    );
    match &ops[1] {
        DiskOp::WriteLines { lines, .. } => assert_eq!(
            lines,
            &vec![
                s("{\"key\":\"k\",\"value\":{\"Present\":\"v2\"},\"timestamp\":2}"),
                s("{\"key\":\"only0\",\"value\":\"Deleted\",\"timestamp\":10}"),
                s("{\"key\":\"only1\",\"value\":{\"Present\":\"x\"},\"timestamp\":1}"),
                s("{\"key\":\"only2\",\"value\":{\"Present\":\"x\"},\"timestamp\":2}"),
            ]
        ),
        other => panic!("unexpected {:?}", other),
    }
    assert_eq!(engine.get("k"), Some(s("v2")));
    assert_eq!(engine.get("only0"), None);
    assert_eq!(
        engine.get_all(),
        vec![(s("k"), s("v2")), (s("only1"), s("x")), (s("only2"), s("x"))]
    );
}

#[test]
fn engine_second_compaction_keeps_the_compacted_file() {
    let mut engine = open(Vec::new());
    for run in 0..4u64 {
        engine.insert_at(format!("a{}", run), s("x"), run);
        engine.flush();
    }
    assert_eq!(engine.sstable_count(), 1);
    let mut last = Vec::new();
    for run in 4..7u64 {
        engine.insert_at(format!("a{}", run), s("x"), run);
        last = engine.flush();
    }
    assert_eq!(engine.sstable_count(), 1);
    let removed: Vec<&String> = last
        .iter()
        .filter_map(|op| match op {
            DiskOp::RemoveFile { path } => Some(path),
            _ => None,
        })
        .collect();
    assert_eq!(
        removed,
        vec!["data/users/sstable_1.log", "data/users/sstable_2.log", "data/users/sstable_3.log"]
    );
    assert_eq!(engine.get_all().len(), 7);
}

#[test]
fn engine_compaction_keeps_the_greatest_timestamp() {
    let mut engine = open(Vec::new());
    engine.insert_at(s("k"), s("late"), 50);
    engine.flush();
    // the clock ran backwards: an earlier stamp in a newer run
    engine.insert_at(s("k"), s("early"), 10);
    engine.flush();
    assert_eq!(engine.get("k"), Some(s("early")));
    engine.compact();
    assert_eq!(engine.sstable_count(), 1);
    assert_eq!(engine.get("k"), Some(s("late")));
}

#[test]
fn engine_compaction_prefers_the_newer_run_on_equal_timestamps() {
    let mut engine = open(Vec::new());
    engine.insert_at(s("k"), s("first"), 5);
    engine.flush();
    engine.delete_at(s("k"), 5);
    engine.flush();
    engine.compact();
    assert_eq!(engine.get("k"), None);
}

#[test]
fn engine_compaction_preserves_tombstones() {
    let mut engine = open(Vec::new());
    engine.insert_at(s("k"), s("v"), 1);
    engine.flush();
    engine.delete_at(s("k"), 2);
    engine.flush();
    let ops = engine.compact();
    match &ops[0] {
        DiskOp::WriteLines { lines, .. } => {
            assert_eq!(lines, &vec![s("{\"key\":\"k\",\"value\":\"Deleted\",\"timestamp\":2}")]);
        }
        other => panic!("unexpected {:?}", other),
    }
    assert_eq!(engine.get("k"), None);
}

#[test]
fn engine_compact_with_one_run_does_nothing() {
    let mut engine = open(Vec::new());
    engine.insert_at(s("k"), s("v"), 1);
    engine.flush();
    assert!(engine.compact().is_empty());
    assert_eq!(engine.sstable_count(), 1);
}

#[test]
fn engine_repeated_writes_then_flush_and_compaction_reflect_the_last() {
    let mut engine = open(Vec::new());
    engine.insert_at(s("pad"), s("x"), 0);
    engine.flush();
    let mut stamp = 1;
    for round in 0..5 {
        engine.insert_at(s("k"), format!("v{}", round), stamp);
        stamp += 1;
        engine.delete_at(s("k"), stamp);
        stamp += 1;
    }
    engine.insert_at(s("k"), s("final"), stamp);
    engine.flush();
    engine.compact();
    assert_eq!(engine.get("k"), Some(s("final")));
    assert_eq!(engine.get_all(), vec![(s("k"), s("final")), (s("pad"), s("x"))]);
}

#[test]
fn engine_flushes_at_once_when_the_buffer_fills() {
    let mut engine = open(Vec::new());
    let ops = engine.insert_at(s("big"), "x".repeat(MEMTABLE_SIZE_LIMIT), 1);
    assert_eq!(ops.len(), 2);
    assert!(matches!(&ops[0], DiskOp::AppendLine { .. }));
    assert!(matches!(&ops[1], DiskOp::WriteLines { path, .. } if path == "data/users/sstable_0.log"));
    assert_eq!(engine.sstable_count(), 1);
    assert_eq!(engine.get("big").map(|v| v.len()), Some(MEMTABLE_SIZE_LIMIT));
    // the buffer is empty again
    let ops = engine.insert_at(s("small"), s("v"), 2);
    assert_eq!(ops.len(), 1);
}

#[test]
fn engine_recovery_replays_insert_then_delete() {
    let mut first = open(Vec::new());
    first.insert_at(s("k"), s("v"), 1);
    first.insert_at(s("j"), s("w"), 2);
    first.delete_at(s("k"), 3);
    let reopened = open(first.wal().replay());
    assert_eq!(reopened.sstable_count(), 0);
    assert_eq!(reopened.get("k"), None);
    assert_eq!(reopened.get("j"), Some(s("w")));
    assert_eq!(reopened.get_all(), vec![(s("j"), s("w"))]);
}

#[test]
fn engine_recovery_keeps_logged_timestamps() {
    let logged = vec![StorageEntry::present(s("k"), s("v"), 42)];
    let mut engine = open(logged);
    let ops = engine.flush();
    match &ops[0] {
        DiskOp::WriteLines { lines, .. } => {
            assert_eq!(lines, &vec![s("{\"key\":\"k\",\"value\":{\"Present\":\"v\"},\"timestamp\":42}")]);
        }
        other => panic!("unexpected {:?}", other),
    }
}

#[test]
fn engine_recovery_after_flush_still_has_everything() {
    let mut first = open(Vec::new());
    first.insert_at(s("a"), s("1"), 1);
    first.flush();
    first.insert_at(s("b"), s("2"), 2);
    first.close();
    let reopened = open(first.wal().replay());
    assert_eq!(reopened.get_all(), vec![(s("a"), s("1")), (s("b"), s("2"))]);
}

#[test]
fn engine_insert_update_delete_then_reopen_is_empty() {
    let mut first = open(Vec::new());
    first.insert_at(s("row_1_0"), s("{\"name\":\"Alice\"}"), 1);
    // an update is a delete and a new insert under the same key
    first.delete_at(s("row_1_0"), 2);
    first.insert_at(s("row_1_0"), s("{\"name\":\"Bob\"}"), 2);
    first.delete_at(s("row_1_0"), 3);
    let reopened = open(first.wal().replay());
    assert!(reopened.get_all().is_empty());
}

#[test]
fn engine_insert_and_delete_stamp_with_the_clock() {
    let mut engine = open(Vec::new());
    engine.insert(s("k"), s("v"));
    assert_eq!(engine.get("k"), Some(s("v")));
    engine.delete(s("k"));
    assert_eq!(engine.get("k"), None);
    let log = engine.wal().replay();
    assert_eq!(log.len(), 2);
    assert!(log[0].timestamp > 1_000_000_000_000);
}

#[test]
fn engine_apply_takes_an_entry_as_it_is() {
    let mut engine = open(Vec::new());
    let ops = engine.apply(StorageEntry::present(s("k"), s("v"), 9));
    assert_eq!(ops.len(), 1);
    assert_eq!(engine.get("k"), Some(s("v")));
    engine.apply(StorageEntry::deleted(s("k"), 10));
    assert_eq!(engine.get("k"), None);
}

#[test]
fn engine_flush_marks_the_run_with_its_keys_and_size() {
    let mut engine = open(Vec::new());
    engine.insert_at(s("b"), s("2"), 1);
    engine.insert_at(s("a"), s("1"), 2);
    engine.flush();
    assert_eq!(engine.sstable_count(), 1);
    let run = engine.sstable(0);
    assert_eq!(run.path(), "data/users/sstable_0.log");
    assert_eq!(run.min_key(), "a");
    assert_eq!(run.max_key(), "b");
    assert_eq!(run.size(), 100);
    let lines: usize = run.read_entries().iter().map(|entry| entry.to_line().len() + 1).sum();
    assert_eq!(run.size(), lines);
}

#[test]
fn engine_compaction_marks_the_merged_run() {
    let mut engine = open(Vec::new());
    engine.insert_at(s("m"), s("1"), 1);
    engine.flush();
    engine.delete_at(s("c"), 2);
    engine.flush();
    engine.insert_at(s("x"), s("3"), 3);
    engine.flush();
    engine.compact();
    assert_eq!(engine.sstable_count(), 1);
    let run = engine.sstable(0);
    assert_eq!(run.path(), "data/users/sstable_compacted.log");
    assert_eq!(run.min_key(), "c");
    assert_eq!(run.max_key(), "x");
    let lines: usize = run.read_entries().iter().map(|entry| entry.to_line().len() + 1).sum();
    assert_eq!(run.size(), lines);
    assert_eq!(run.read_entries().len(), 3);
}

#[test]
fn engine_never_keeps_more_runs_than_the_fan_out() {
    let mut engine = open(Vec::new());
    for round in 0..12u64 {
        engine.insert_at(format!("k{}", round), s("v"), round);
        engine.flush();
        assert!(engine.sstable_count() <= 3);
    }
    assert_eq!(engine.get_all().len(), 12);
}

#[test]
fn engine_holds_a_key_live_or_deleted() {
    let mut engine = open(Vec::new());
    engine.insert_at(s("a"), s("1"), 1);
    engine.flush();
    engine.delete_at(s("b"), 2);
    assert!(engine.holds("a"));
    assert!(engine.holds("b"));
    assert!(!engine.holds("c"));
}

#[test]
fn engine_stamps_no_write_below_the_newest_of_its_log() {
    let ahead = u64::MAX - 1;
    let mut engine = open(vec![StorageEntry::present(s("k"), s("old"), ahead)]);
    engine.flush();
    engine.insert(s("k"), s("new"));
    assert_eq!(engine.get("k"), Some(s("new")));
    engine.flush();
    engine.delete(s("k"));
    assert_eq!(engine.get("k"), None);
    engine.flush();
    engine.compact();
    assert_eq!(engine.get("k"), None);
    let stamps: Vec<u64> = engine.wal().replay().iter().map(|entry| entry.timestamp).collect();
    assert_eq!(stamps, vec![ahead, ahead, ahead]);
}

#[test]
fn engine_insert_then_delete_is_not_found_after_a_reopen_with_runs() {
    let mut engine = open(vec![
        StorageEntry::present(s("a"), s("1"), 900),
        StorageEntry::deleted(s("b"), 5),
    ]);
    engine.flush();
    engine.insert(s("b"), s("2"));
    engine.flush();
    engine.delete(s("b"));
    engine.flush();
    engine.compact();
    assert_eq!(engine.get("b"), None);
    assert_eq!(engine.get("a"), Some(s("1")));
}

#[test]
fn engine_insert_then_delete_is_not_found_even_where_stamps_had_fallen() {
    let mut engine = open(Vec::new());
    engine.insert_at(s("k"), s("late"), u64::MAX);
    engine.flush();
    engine.insert_at(s("k"), s("early"), 1);
    engine.flush();
    engine.insert(s("k"), s("v"));
    assert_eq!(engine.get("k"), Some(s("v")));
    engine.flush();
    engine.delete(s("k"));
    assert_eq!(engine.get("k"), None);
    engine.flush();
    assert_eq!(engine.sstable_count(), 1);
    assert_eq!(engine.get("k"), None);
    assert!(engine.get_all().is_empty());
}

#[test]
fn engine_stamp_is_the_clock_or_the_newest_of_the_log() {
    let mut engine = open(vec![StorageEntry::present(s("a"), s("1"), 9)]);
    assert_eq!(engine.stamp(5), 9);
    assert_eq!(engine.stamp(9), 9);
    assert_eq!(engine.stamp(12), 12);
    engine.insert_at(s("b"), s("2"), 40);
    assert_eq!(engine.stamp(12), 40);
    engine.insert_at(s("c"), s("3"), 7);
    assert_eq!(engine.stamp(12), 40);
}

#[test]
fn engine_failed_append_leaves_the_table_as_it_was() {
    let mut engine = open(vec![StorageEntry::present(s("a"), s("1"), 1)]);
    let entry = StorageEntry::present(s("b"), s("2"), 2);
    let op = engine.log_op(&entry);
    let expected = entry.to_line();
    assert!(matches!(&op, DiskOp::AppendLine { path, line } if path == "data/users/wal.log" && *line == expected));
    assert_eq!(engine.get("b"), None);
    let outcome = engine.commit(entry, Err(s("disk full")));
    assert!(matches!(outcome, Err(lsm_sql::ExecError::IOError(why)) if why == "disk full"));
    assert_eq!(engine.get("b"), None);
    assert_eq!(engine.get("a"), Some(s("1")));
    assert_eq!(engine.wal().replay().len(), 1);
    assert_eq!(engine.get_all(), vec![(s("a"), s("1"))]);
}

#[test]
fn engine_commit_applies_a_logged_write() {
    let mut engine = open(Vec::new());
    let entry = StorageEntry::deleted(s("k"), 7);
    engine.insert_at(s("k"), s("v"), 3);
    let rest = engine.commit(entry, Ok(())).unwrap();
    assert!(rest.is_empty());
    assert_eq!(engine.get("k"), None);
    assert_eq!(engine.wal().replay().len(), 2);
    assert!(engine.holds("k"));
}

#[test]
fn engine_commit_hands_out_the_flush_of_a_full_buffer() {
    let mut engine = open(Vec::new());
    let big = "x".repeat(MEMTABLE_SIZE_LIMIT);
    let rest = engine.commit(StorageEntry::present(s("k"), big.clone(), 1), Ok(())).unwrap();
    assert_eq!(rest.len(), 1);
    assert!(matches!(&rest[0], DiskOp::WriteLines { path, lines } if path == "data/users/sstable_0.log" && lines.len() == 1));
    assert_eq!(engine.sstable_count(), 1);
    assert_eq!(engine.get("k"), Some(big));
}
