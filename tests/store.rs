use rust_rocksdb::checkpoint::Checkpoint;
use rust_rocksdb::db::DB;
use rust_rocksdb::error::Error;
use rust_rocksdb::events::{DBCompactionReason, DBWriteStallCondition, DBBackgroundErrorReason, MutableStatus};
use rust_rocksdb::options::ColumnFamilyOptions;
use std::collections::HashMap;

fn b(s: &str) -> Vec<u8> {
    s.as_bytes().to_vec()
}

fn open_default() -> DB {
    DB::open(ColumnFamilyOptions::default())
}

#[test]
fn put_get_and_overwrite() {
    let mut db = open_default();
    assert_eq!(db.put(&b("k1"), &b("v1")), Ok(1));
    assert_eq!(db.put(&b("k2"), &b("v2")), Ok(2));
    assert_eq!(db.get(&b("k1")), Some(b("v1")));
    assert_eq!(db.put(&b("k1"), &b("v3")), Ok(3));
    assert_eq!(db.get(&b("k1")), Some(b("v3")));
    assert_eq!(db.get(&b("missing")), None);
    assert_eq!(db.latest_sequence_number(), 3);
}

#[test]
fn merge_appends_operands() {
    let mut db = open_default();
    db.merge(&b("m"), &b("a")).unwrap();
    assert_eq!(db.get(&b("m")), Some(b("a")));
    db.merge(&b("m"), &b("b")).unwrap();
    db.merge(&b("m"), &b("c")).unwrap();
    assert_eq!(db.get(&b("m")), Some(b("abc")));
    db.put(&b("m"), &b("x")).unwrap();
    db.merge(&b("m"), &b("y")).unwrap();
    assert_eq!(db.get(&b("m")), Some(b("xy")));
    db.delete(&b("m")).unwrap();
    db.merge(&b("m"), &b("z")).unwrap();
    assert_eq!(db.get(&b("m")), Some(b("z")));
}

#[test]
fn test_single_delete() {
    let mut db = open_default();
    let (k1, v1) = (b("k1"), b("v1"));
    let k2 = b("k2");
    db.put(&k1, &v1).unwrap();
    assert_eq!(db.get(&k1), Some(v1.clone()));
    db.single_delete(&k1).unwrap();
    assert_eq!(db.get(&k1), None);
    db.single_delete(&k2).unwrap();
    assert_eq!(db.get(&k2), None);
}

#[test]
fn snapshot_reads_ignore_later_writes() {
    let mut db = open_default();
    db.put(&b("a"), &b("1")).unwrap();
    db.put(&b("b"), &b("2")).unwrap();
    let snap = db.snapshot();
    db.put(&b("a"), &b("10")).unwrap();
    db.delete(&b("b")).unwrap();
    db.put(&b("c"), &b("3")).unwrap();
    db.flush().unwrap();
    db.compact_level(0, DBCompactionReason::ManualCompaction).unwrap();
    assert_eq!(db.get_snapshot(&b("a"), snap), Some(b("1")));
    assert_eq!(db.get_snapshot(&b("b"), snap), Some(b("2")));
    assert_eq!(db.get_snapshot(&b("c"), snap), None);
    assert_eq!(db.get(&b("a")), Some(b("10")));
    assert_eq!(db.get(&b("b")), None);
    assert!(db.release_snapshot(snap));
    assert!(!db.release_snapshot(snap));
}

#[test]
fn tombstone_hides_older_put_in_lower_level() {
    let mut db = open_default();
    db.put(&b("k"), &b("old")).unwrap();
    db.flush().unwrap();
    db.compact_level(0, DBCompactionReason::ManualCompaction).unwrap();
    db.delete(&b("k")).unwrap();
    assert_eq!(db.get(&b("k")), None);
    db.flush().unwrap();
    assert_eq!(db.get(&b("k")), None);
    assert_eq!(db.get_at(&b("k"), 1), Some(b("old")));
}

#[test]
fn compaction_drops_obsolete_records() {
    let mut db = open_default();
    for i in 0..10u32 {
        db.put(&b("key"), &format!("v{i}").into_bytes()).unwrap();
    }
    db.put(&b("other"), &b("o")).unwrap();
    db.flush().unwrap();
    let info = db.compact_level(0, DBCompactionReason::ManualCompaction).unwrap();
    assert_eq!(info.input_records(), 11);
    assert_eq!(info.output_records(), 2);
    assert_eq!(info.input_file_count(), 1);
    assert_eq!(info.output_file_count(), 1);
    assert_eq!(info.base_input_level(), 0);
    assert_eq!(info.output_level(), 1);
    assert_eq!(info.num_input_files_at_output_level(), 0);
    assert_eq!(info.compaction_reason(), DBCompactionReason::ManualCompaction);
    assert_eq!(info.status(), Ok(()));
    assert_eq!(db.get(&b("key")), Some(b("v9")));
    assert_eq!(db.get(&b("other")), Some(b("o")));
}

#[test]
fn compaction_keeps_versions_seen_by_snapshots() {
    let mut db = open_default();
    db.put(&b("key"), &b("first")).unwrap();
    let snap = db.snapshot();
    db.put(&b("key"), &b("second")).unwrap();
    db.flush().unwrap();
    let info = db.compact_level(0, DBCompactionReason::ManualCompaction).unwrap();
    assert_eq!(info.output_records(), 2);
    assert_eq!(db.get_snapshot(&b("key"), snap), Some(b("first")));
    db.release_snapshot(snap);
    let info = db.compact_level(1, DBCompactionReason::ManualCompaction).unwrap();
    assert_eq!(info.output_records(), 1);
    assert_eq!(db.get(&b("key")), Some(b("second")));
}

#[test]
fn flush_reports_sequence_range() {
    let mut db = open_default();
    db.put(&b("a"), &b("1")).unwrap();
    db.put(&b("b"), &b("2")).unwrap();
    db.put(&b("c"), &b("3")).unwrap();
    let info = db.flush().unwrap();
    assert_eq!(info.smallest_seqno(), 1);
    assert_eq!(info.largest_seqno(), 3);
    assert!(!info.triggered_writes_stop());
    assert!(!info.triggered_writes_slowdown());
    assert_eq!(info.cf_name(), None);
    assert_eq!(db.level_file_count(0), 1);
    let empty = db.flush().unwrap();
    assert_eq!(empty.file_number, 0);
    assert_eq!(empty.smallest_seqno(), 0);
    assert_eq!(empty.largest_seqno(), 0);
    assert_eq!(db.level_file_count(0), 1);
}

#[test]
fn errors_for_closing_background_and_bad_level() {
    let mut db = open_default();
    db.put(&b("a"), &b("1")).unwrap();
    db.set_background_error(DBBackgroundErrorReason::Flush);
    assert_eq!(db.put(&b("a"), &b("2")), Err(Error::Background));
    let mut status = MutableStatus { result: Err("io".to_string()) };
    db.resume(&status);
    assert_eq!(db.put(&b("a"), &b("2")), Err(Error::Background));
    status.reset();
    assert_eq!(status.result(), Ok(()));
    db.resume(&status);
    assert_eq!(db.put(&b("a"), &b("2")), Ok(2));
    assert!(db.compact_level(usize::MAX, DBCompactionReason::ManualCompaction).is_err());
    db.close();
    assert_eq!(db.put(&b("a"), &b("3")), Err(Error::ShutdownInProgress));
    assert_eq!(db.get(&b("a")), Some(b("2")));
}

#[test]
fn mutable_status_result_reports_error() {
    let status = MutableStatus { result: Err("disk".to_string()) };
    assert_eq!(status.result(), Err("disk".to_string()));
}

fn apply_picked(db: &mut DB) {
    if let Some((level, reason)) = db.pick_compaction() {
        db.compact_level(level, reason).unwrap();
    }
}

#[test]
fn backpressure_stops_until_compaction() {
    let mut opts = ColumnFamilyOptions::default();
    opts.set_level_zero_stop_writes_trigger(1);
    opts.set_level_zero_slowdown_writes_trigger(1);
    opts.set_level_zero_file_num_compaction_trigger(1);
    opts.set_write_buffer_size(150_000);
    let mut db = DB::open(opts);
    let mut flushes = 0;
    let mut blocked = 0;
    let mut seen = Vec::new();
    for i in 0..10000u32 {
        let k = format!("k{i:05}").into_bytes();
        let mut r = db.put(&k, &k);
        if r == Err(Error::Busy) {
            blocked += 1;
            assert_eq!(db.stall_condition(), DBWriteStallCondition::Stopped);
            assert_eq!(db.pick_compaction(), Some((0, DBCompactionReason::LevelL0FilesNum)));
            apply_picked(&mut db);
            assert_eq!(db.level_file_count(0), 0);
            r = db.put(&k, &k);
        }
        assert!(r.is_ok());
        if db.should_flush() {
            db.flush().unwrap();
            flushes += 1;
        }
        seen.extend(db.take_stall_events());
    }
    assert_eq!(flushes, 1);
    assert_eq!(blocked, 1);
    assert!(seen.iter().any(|e| e.prev() == DBWriteStallCondition::Normal
        && (e.cur() == DBWriteStallCondition::Delayed || e.cur() == DBWriteStallCondition::Stopped)));
    assert_eq!(db.get(&b("k09999")), Some(b("k09999")));
    assert_eq!(db.get(&b("k00000")), Some(b("k00000")));
}

#[test]
fn test_single_checkpoint() {
    let mut db = open_default();
    db.put(b"k1".as_ref().to_vec().as_ref(), &b("v1")).unwrap();
    db.put(&b("k2"), &b("v2")).unwrap();
    db.put(&b("k3"), &b("v3")).unwrap();
    db.put(&b("k4"), &b("v4")).unwrap();
    let cp = Checkpoint::new(&db).unwrap();
    let cp_db = cp.create_checkpoint();
    assert_eq!(cp_db.get(&b("k1")), Some(b("v1")));
    assert_eq!(cp_db.get(&b("k2")), Some(b("v2")));
    assert_eq!(cp_db.get(&b("k3")), Some(b("v3")));
    assert_eq!(cp_db.get(&b("k4")), Some(b("v4")));
}

#[test]
fn test_multi_checkpoints() {
    let mut db = open_default();
    for (k, v) in [("k1", "v1"), ("k2", "v2"), ("k3", "v3"), ("k4", "v4")] {
        db.put(&b(k), &b(v)).unwrap();
    }
    let cp1 = Checkpoint::new(&db).unwrap();
    db.put(&b("k1"), &b("modified")).unwrap();
    db.put(&b("k2"), &b("changed")).unwrap();
    db.put(&b("k5"), &b("v5")).unwrap();
    db.put(&b("k6"), &b("v6")).unwrap();
    let cp2 = Checkpoint::new(&db).unwrap();
    let first = cp1.create_checkpoint();
    assert_eq!(first.get(&b("k1")), Some(b("v1")));
    assert_eq!(first.get(&b("k2")), Some(b("v2")));
    assert_eq!(first.get(&b("k3")), Some(b("v3")));
    assert_eq!(first.get(&b("k4")), Some(b("v4")));
    assert_eq!(first.get(&b("k5")), None);
    let second = cp2.create_checkpoint();
    assert_eq!(second.get(&b("k1")), Some(b("modified")));
    assert_eq!(second.get(&b("k2")), Some(b("changed")));
    assert_eq!(second.get(&b("k5")), Some(b("v5")));
    assert_eq!(second.get(&b("k6")), Some(b("v6")));
}

#[test]
fn round_trip_against_reference_map() {
    let mut db = open_default();
    let mut reference: HashMap<Vec<u8>, Vec<u8>> = HashMap::new();
    let mut x: u64 = 12345;
    for step in 0..600u32 {
        x = x.wrapping_mul(6364136223846793005).wrapping_add(1442695040888963407);
        let key = format!("key{}", (x >> 33) % 23).into_bytes();
        let val = format!("v{step}").into_bytes();
        match (x >> 20) % 3 {
            0 => {
                db.put(&key, &val).unwrap();
                reference.insert(key, val);
            }
            1 => {
                db.delete(&key).unwrap();
                reference.remove(&key);
            }
            _ => {
                db.merge(&key, &val).unwrap();
                reference.entry(key).or_default().extend_from_slice(&val);
            }
        }
        if step % 97 == 96 {
            db.flush().unwrap();
        }
        if step % 211 == 210 {
            db.compact_level(0, DBCompactionReason::ManualCompaction).unwrap();
            db.compact_level(1, DBCompactionReason::ManualCompaction).unwrap();
        }
    }
    db.flush().unwrap();
    db.compact_level(0, DBCompactionReason::ManualCompaction).unwrap();
    db.compact_level(1, DBCompactionReason::ManualCompaction).unwrap();
    assert_eq!(db.level_file_count(2), 1);
    for i in 0..23 {
        let key = format!("key{i}").into_bytes();
        assert_eq!(db.get(&key), reference.get(&key).cloned());
    }
}

#[test]
fn picker_reports_oversized_level() {
    let mut opts = ColumnFamilyOptions::default();
    opts.set_max_bytes_for_level_base(100);
    let mut db = DB::open(opts);
    assert_eq!(db.pick_compaction(), None);
    for i in 0..10u32 {
        let k = format!("key{i}").into_bytes();
        db.put(&k, &b("0123456789")).unwrap();
    }
    db.flush().unwrap();
    db.compact_level(0, DBCompactionReason::ManualCompaction).unwrap();
    assert_eq!(db.approximate_table_bytes(), 10 * (4 + 10 + 8));
    assert_eq!(db.pick_compaction(), Some((1, DBCompactionReason::LevelMaxLevelSize)));
    let mut off = ColumnFamilyOptions::default();
    off.set_disable_auto_compactions(true);
    assert!(off.disable_auto_compactions);
}

#[test]
fn flushed_files_are_in_internal_key_order() {
    let mut db = open_default();
    db.put(&b("b"), &b("1")).unwrap();
    db.put(&b("a"), &b("2")).unwrap();
    db.put(&b("b"), &b("3")).unwrap();
    db.put(&b("c"), &b("4")).unwrap();
    db.put(&b("ab"), &b("5")).unwrap();
    db.flush().unwrap();
    let order: Vec<(Vec<u8>, u64)> = db.files[0].records.iter().map(|r| (r.key.clone(), r.seq)).collect();
    assert_eq!(order, vec![(b("a"), 2), (b("ab"), 5), (b("b"), 3), (b("b"), 1), (b("c"), 4)]);
    db.put(&b("b"), &b("6")).unwrap();
    db.flush().unwrap();
    db.compact_level(0, DBCompactionReason::ManualCompaction).unwrap();
    let order: Vec<(Vec<u8>, u64)> = db.files[0].records.iter().map(|r| (r.key.clone(), r.seq)).collect();
    assert_eq!(order, vec![(b("a"), 2), (b("ab"), 5), (b("b"), 6), (b("c"), 4)]);
}

#[test]
fn multiget_pinned_default_cf() {
    let mut db = open_default();
    db.put(&b("k1"), &b("v1")).unwrap();
    db.put(&b("k2"), &b("v2")).unwrap();
    let res = db.multi_get(&vec![b("k1"), b("k3"), b("k2")]);
    assert_eq!(res.len(), 3);
    assert_eq!(res[0], Some(b("v1")), "unexpected result for k1");
    assert_eq!(res[1], None, "unexpected result for k3");
    assert_eq!(res[2], Some(b("v2")), "unexpected result for k2");
}

#[test]
fn prefix_exists_default_cf() {
    let mut db = open_default();
    db.put(&b("a1"), &b("v1")).unwrap();
    db.put(&b("a2"), &b("v2")).unwrap();
    db.put(&b("b1"), &b("v3")).unwrap();
    assert!(db.prefix_exists(&b("a")));
    assert!(db.prefix_exists(&b("b")));
    assert!(!db.prefix_exists(&b("c")));
    assert!(db.prefix_exists(&b("")));
}

#[test]
fn prefix_exists_with_readopts() {
    let mut db = open_default();
    db.put(&b("p1x"), &b("v1")).unwrap();
    db.put(&b("p1y"), &b("v2")).unwrap();
    assert!(db.prefix_exists(&b("p1")));
    assert!(!db.prefix_exists(&b("p2")));
}

#[test]
fn scan_lists_live_keys_in_order() {
    let mut db = open_default();
    db.put(&b("d"), &b("4")).unwrap();
    db.put(&b("b"), &b("2")).unwrap();
    db.flush().unwrap();
    db.put(&b("a"), &b("1")).unwrap();
    db.put(&b("c"), &b("3")).unwrap();
    db.delete(&b("d")).unwrap();
    db.put(&b("b"), &b("22")).unwrap();
    let snap = db.snapshot();
    db.put(&b("e"), &b("5")).unwrap();
    let all = db.scan(&Vec::new(), db.latest_sequence_number());
    assert_eq!(all, vec![(b("a"), b("1")), (b("b"), b("22")), (b("c"), b("3")), (b("e"), b("5"))]);
    let from_b = db.scan(&b("bb"), db.latest_sequence_number());
    assert_eq!(from_b, vec![(b("c"), b("3")), (b("e"), b("5"))]);
    let at_snap = db.scan(&Vec::new(), snap.seq);
    assert_eq!(at_snap.len(), 3);
    let old = db.scan(&Vec::new(), 2);
    assert_eq!(old, vec![(b("b"), b("2")), (b("d"), b("4"))]);
    let pre = db.prefix_scan(&b("c"), db.latest_sequence_number());
    assert_eq!(pre, vec![(b("c"), b("3"))]);
}

#[test]
fn test_iterator_empty_database() {
    let db = open_default();
    assert!(db.scan(&Vec::new(), db.latest_sequence_number()).is_empty());
    assert_eq!(db.get(&Vec::new()), None);
}

#[test]
fn test_iterator_empty_key_value() {
    let mut db = open_default();
    db.put(&Vec::new(), &b("value")).unwrap();
    db.put(&b("regular"), &Vec::new()).unwrap();
    assert_eq!(db.get(&Vec::new()), Some(b("value")));
    assert_eq!(db.get(&b("regular")), Some(Vec::new()));
    let all = db.scan(&Vec::new(), db.latest_sequence_number());
    assert_eq!(all, vec![(Vec::new(), b("value")), (b("regular"), Vec::new())]);
}

#[test]
fn manifest_records_flush_and_compaction_edits() {
    let mut db = open_default();
    db.put(&b("a"), &b("1")).unwrap();
    let f1 = db.flush().unwrap().file_number;
    db.put(&b("b"), &b("2")).unwrap();
    let f2 = db.flush().unwrap().file_number;
    assert_eq!(db.manifest.len(), 2);
    assert_eq!(db.manifest[0].added, vec![(f1, 0)]);
    assert_eq!(db.manifest[1].added, vec![(f2, 0)]);
    db.compact_level(0, DBCompactionReason::ManualCompaction).unwrap();
    assert_eq!(db.manifest.len(), 3);
    let mut removed = db.manifest[2].removed.clone();
    removed.sort();
    assert_eq!(removed, vec![f1, f2]);
    let out = db.files[0].id;
    assert_eq!(db.manifest[2].added, vec![(out, 1)]);
    db.roll_manifest();
    assert_eq!(db.manifest.len(), 1);
    assert_eq!(db.manifest[0].added, vec![(out, 1)]);
    assert!(db.manifest[0].removed.is_empty());
}

#[test]
fn delete_range_removes_exactly_the_range() {
    let mut db = open_default();
    for k in ["a", "b", "ba", "c", "d"] {
        db.put(&b(k), &b("v")).unwrap();
    }
    db.flush().unwrap();
    db.put(&b("bb"), &b("w")).unwrap();
    let snap = db.snapshot();
    let seq = db.delete_range(&b("b"), &b("d")).unwrap();
    assert_eq!(seq, db.latest_sequence_number());
    assert_eq!(seq, 6 + 4);
    assert_eq!(db.get(&b("a")), Some(b("v")));
    assert_eq!(db.get(&b("b")), None);
    assert_eq!(db.get(&b("ba")), None);
    assert_eq!(db.get(&b("bb")), None);
    assert_eq!(db.get(&b("c")), None);
    assert_eq!(db.get(&b("d")), Some(b("v")));
    assert_eq!(db.get_snapshot(&b("c"), snap), Some(b("v")));
    let empty = db.delete_range(&b("x"), &b("z")).unwrap();
    assert_eq!(empty, seq);
    db.close();
    assert_eq!(db.delete_range(&b("a"), &b("z")), Err(Error::ShutdownInProgress));
}
