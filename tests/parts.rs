use rust_rocksdb::cache::Cache;
use rust_rocksdb::db::DB;
use rust_rocksdb::error::Error;
use rust_rocksdb::events::DBWriteStallCondition;
use rust_rocksdb::options::ColumnFamilyOptions;
use rust_rocksdb::perf::{get_memory_usage_stats, MemoryUsageBuilder, PerfContext, PerfMetric, PerfStatsLevel};
use rust_rocksdb::sst_file_manager::SstFileManager;
use rust_rocksdb::table_properties::{table_properties, CollectorError, TablePropertiesCollector, collect_file};
use rust_rocksdb::types::{EntryType, Record};
use rust_rocksdb::wal::{decode_log, encode_log};
use rust_rocksdb::write_buffer_manager::WriteBufferManager;
use rust_rocksdb::write_controller::stall_condition;

fn b(s: &str) -> Vec<u8> {
    s.as_bytes().to_vec()
}

#[test]
fn cache_hit_returns_block_of_that_key() {
    let mut cache = Cache::new_lru_cache(100, 1);
    assert!(cache.insert(1, 0, vec![1; 10]));
    assert!(cache.insert(1, 4096, vec![2; 10]));
    assert!(cache.insert(2, 0, vec![3; 10]));
    assert_eq!(cache.lookup(1, 0), Some(vec![1; 10]));
    assert_eq!(cache.lookup(1, 4096), Some(vec![2; 10]));
    assert_eq!(cache.lookup(2, 0), Some(vec![3; 10]));
    assert_eq!(cache.lookup(2, 4096), None);
    assert!(!cache.insert(1, 0, vec![9; 10]));
    assert_eq!(cache.lookup(1, 0), Some(vec![1; 10]));
    assert_eq!(cache.get_usage(), 30);
}

#[test]
fn cache_evicts_least_recently_used_within_capacity() {
    let mut cache = Cache::new_lru_cache(30, 1);
    assert!(cache.insert(1, 0, vec![0; 10]));
    assert!(cache.insert(1, 1, vec![1; 10]));
    assert!(cache.insert(1, 2, vec![2; 10]));
    assert!(cache.lookup(1, 0).is_some());
    assert!(cache.insert(1, 3, vec![3; 10]));
    assert_eq!(cache.get_usage(), 30);
    assert_eq!(cache.lookup(1, 1), None);
    assert!(cache.lookup(1, 0).is_some());
    assert!(!cache.insert(9, 9, vec![0; 31]));
    assert!(cache.get_usage() <= 30);
}

#[test]
fn cache_pins_survive_eviction_and_capacity_changes() {
    let mut cache = Cache::new_hyper_clock_cache(20, 0, 1);
    assert!(cache.insert(1, 0, vec![0; 10]));
    assert!(cache.pin(1, 0));
    assert_eq!(cache.get_pinned_usage(), 10);
    assert!(cache.insert(1, 1, vec![1; 10]));
    assert!(cache.insert(1, 2, vec![2; 10]));
    assert_eq!(cache.lookup(1, 1), None);
    assert_eq!(cache.lookup(1, 0), Some(vec![0; 10]));
    assert!(!cache.insert(1, 3, vec![3; 15]));
    cache.set_capacity(5);
    assert_eq!(cache.get_usage(), 10);
    assert!(cache.unpin(1, 0));
    assert_eq!(cache.get_usage(), 0);
    assert_eq!(cache.get_pinned_usage(), 0);
    assert!(!cache.pin(1, 0));
}

#[test]
fn write_buffer_manager_flush_and_stall() {
    let mut m = WriteBufferManager::new_write_buffer_manager(1000, true);
    assert!(m.enabled());
    assert_eq!(m.get_buffer_size(), 1000);
    m.reserve_mem(800);
    assert!(!m.should_flush());
    m.reserve_mem(100);
    assert!(m.should_flush());
    assert_eq!(m.get_usage(), 900);
    m.schedule_free_mem(900);
    assert!(!m.should_flush());
    m.reserve_mem(500);
    assert!(m.should_flush());
    assert!(m.should_stall());
    m.free_mem(900);
    assert_eq!(m.get_usage(), 500);
    assert!(!m.should_stall());
    m.set_allow_stall(false);
    m.set_buffer_size(0);
    assert!(!m.enabled());
    assert!(!m.should_flush());
}

#[test]
fn test_sst_file_manager_config_and_sizes() {
    let mut sfm = SstFileManager::new();
    sfm.set_compaction_buffer_size(64 * 1024);
    sfm.set_delete_rate_bytes_per_second(1024);
    assert_eq!(sfm.get_delete_rate_bytes_per_second(), 1024);
    let mut db = DB::open(ColumnFamilyOptions::default());
    for i in 0..1000u32 {
        db.put(&format!("k{:04}", i).into_bytes(), &b("value")).unwrap();
    }
    db.flush().unwrap();
    sfm.on_add_file(db.approximate_table_bytes());
    let total_size = sfm.get_total_size();
    assert!(total_size > 0, "expected some SST size; got {}", total_size);
    assert_eq!(total_size, 1000 * (5 + 5 + 8));
    let limit = total_size.saturating_sub(1);
    sfm.set_max_allowed_space_usage(limit);
    assert!(sfm.is_max_allowed_space_reached());
    assert!(sfm.is_max_allowed_space_reached_including_compactions());
    let _trash = sfm.get_total_trash_size();
}

#[test]
fn sst_file_manager_trash_is_purged_at_the_delete_rate() {
    let mut m = SstFileManager::new();
    m.set_max_allowed_space_usage(1024);
    m.set_compaction_buffer_size(64);
    m.on_add_file(1000);
    assert!(!m.is_max_allowed_space_reached());
    assert!(m.is_max_allowed_space_reached_including_compactions());
    m.set_delete_rate_bytes_per_second(100);
    m.on_delete_file(400);
    assert_eq!(m.get_total_size(), 600);
    assert_eq!(m.get_total_trash_size(), 400);
    assert_eq!(m.purge_trash(3), 300);
    assert_eq!(m.get_total_trash_size(), 100);
    assert_eq!(m.purge_trash(3), 100);
}

#[test]
fn perf_context_counts_by_level() {
    let mut ctx = PerfContext::default();
    ctx.record(PerfMetric::InternalKeySkippedCount, 5);
    ctx.record(PerfMetric::SeekInternalSeekTime, 7);
    assert_eq!(ctx.metric(PerfMetric::InternalKeySkippedCount), 5);
    assert_eq!(ctx.metric(PerfMetric::SeekInternalSeekTime), 0);
    ctx.set_perf_stats(PerfStatsLevel::EnableTime);
    ctx.record(PerfMetric::SeekInternalSeekTime, 7);
    ctx.record(PerfMetric::InternalKeySkippedCount, u64::MAX);
    assert_eq!(ctx.metric(PerfMetric::SeekInternalSeekTime), 7);
    assert_eq!(ctx.metric(PerfMetric::InternalKeySkippedCount), u64::MAX);
    ctx.reset();
    assert_eq!(ctx.metric(PerfMetric::InternalKeySkippedCount), 0);
    ctx.set_perf_stats(PerfStatsLevel::Disable);
    ctx.record(PerfMetric::BlockReadCount, 1);
    assert_eq!(ctx.metric(PerfMetric::BlockReadCount), 0);
}

#[test]
fn memory_usage_stats_sum_stores_and_caches() {
    let mut db1 = DB::open(ColumnFamilyOptions::default());
    db1.put(&b("ab"), &b("cd")).unwrap();
    let mut db2 = DB::open(ColumnFamilyOptions::default());
    db2.put(&b("k"), &b("v")).unwrap();
    db2.flush().unwrap();
    let mut cache = Cache::new_lru_cache(100, 1);
    cache.insert(1, 1, vec![0; 7]);
    let other = Cache::new_lru_cache(100, 2);
    let twice = get_memory_usage_stats(None, Some(&[&cache, &cache, &other])).unwrap();
    assert_eq!(twice.cache_total, 7);
    let stats = get_memory_usage_stats(Some(&[&db1, &db2]), Some(&[&cache])).unwrap();
    assert_eq!(stats.mem_table_total, 12);
    assert_eq!(stats.mem_table_unflushed, 12);
    assert_eq!(stats.mem_table_readers_total, 10);
    assert_eq!(stats.cache_total, 7);
    let none = get_memory_usage_stats(None, None).unwrap();
    assert_eq!(none.mem_table_total, 0);
    let mut builder = MemoryUsageBuilder::new().unwrap();
    builder.add_db(&db1);
    builder.add_cache(&cache);
    let mu = builder.build().unwrap();
    assert_eq!(mu.approximate_mem_table_total(), 12);
    assert_eq!(mu.approximate_cache_total(), 7);
}

fn rec(key: &str, seq: u64, kind: EntryType, value: &str) -> Record {
    Record { key: b(key), seq, kind, value: b(value) }
}

#[test]
fn table_properties_count_kinds_and_sizes() {
    let rs = vec![
        rec("a", 1, EntryType::EntryPut, "xyz"),
        rec("b", 2, EntryType::EntryDelete, ""),
        rec("cc", 3, EntryType::EntryMerge, "m"),
        rec("d", 4, EntryType::EntrySingleDelete, ""),
    ];
    let p = table_properties(&rs);
    assert_eq!(p.num_entries, 4);
    assert_eq!(p.num_deletions, 2);
    assert_eq!(p.num_merge_operands, 1);
    assert_eq!(p.raw_key_size, 5);
    assert_eq!(p.raw_value_size, 4);
}

struct KeyCounter {
    seen: Vec<Vec<u8>>,
}

impl TablePropertiesCollector for KeyCounter {
    fn add_user_key(&mut self, key: &[u8], _value: &[u8], _t: EntryType, _seq: u64, _size: u64) -> Result<(), CollectorError> {
        self.seen.push(key.to_vec());
        if key == b"bad" {
            Err(CollectorError { code: 1 })
        } else {
            Ok(())
        }
    }
}

#[test]
fn test_table_properties_collector() {
    let mut db = DB::open(ColumnFamilyOptions::default());
    db.put(&b("foo"), &b("1")).unwrap();
    db.put(&b("bad"), &b("2")).unwrap();
    db.flush().unwrap();
    let mut c = KeyCounter { seen: Vec::new() };
    let errors = collect_file(&mut c, &db.files[0]);
    assert_eq!(errors, 1);
    assert_eq!(c.seen.len(), 2);
    let p = db.files[0].properties();
    assert_eq!(p.num_entries, 2);
}

#[test]
fn wal_round_trip_and_corruption() {
    let rs = vec![rec("k1", 1, EntryType::EntryPut, "v1"), rec("k2", 2, EntryType::EntryMerge, "")];
    let bytes = encode_log(&rs);
    assert_eq!(bytes.len(), 2 * 25 + 2 + 2 + 2);
    assert_eq!(bytes[0], 0);
    assert_eq!(&bytes[1..9], &[1, 0, 0, 0, 0, 0, 0, 0]);
    let back = decode_log(&bytes).unwrap();
    assert_eq!(back.len(), 2);
    assert_eq!(back[0].key, b("k1"));
    assert_eq!(back[0].value, b("v1"));
    assert_eq!(back[1].kind, EntryType::EntryMerge);
    assert_eq!(back[1].seq, 2);
    let mut cut = bytes.clone();
    cut.pop();
    assert!(matches!(decode_log(&cut), Err(Error::Corruption)));
    let mut bad_kind = bytes.clone();
    bad_kind[0] = 42;
    assert!(matches!(decode_log(&bad_kind), Err(Error::Corruption)));
    assert_eq!(decode_log(&Vec::new()).unwrap().len(), 0);
}

#[test]
fn recovery_from_wal_restores_acknowledged_writes() {
    let mut db = DB::open(ColumnFamilyOptions::default());
    db.put(&b("a"), &b("1")).unwrap();
    db.merge(&b("a"), &b("2")).unwrap();
    db.put(&b("b"), &b("x")).unwrap();
    db.delete(&b("b")).unwrap();
    db.flush().unwrap();
    db.put(&b("c"), &b("3")).unwrap();
    let wal = db.wal.clone();
    drop(db);
    let back = DB::recover(ColumnFamilyOptions::default(), &wal).unwrap();
    assert_eq!(back.get(&b("a")), Some(b("12")));
    assert_eq!(back.get(&b("b")), None);
    assert_eq!(back.get(&b("c")), Some(b("3")));
    assert_eq!(back.latest_sequence_number(), 5);
    let reordered = encode_log(&vec![rec("a", 2, EntryType::EntryPut, "1")]);
    assert!(matches!(DB::recover(ColumnFamilyOptions::default(), &reordered), Err(Error::Corruption)));
}

#[test]
fn stall_condition_thresholds() {
    let mut o = ColumnFamilyOptions::default();
    o.set_write_buffer_size(100);
    o.set_max_write_buffer_number(3);
    o.set_level_zero_slowdown_writes_trigger(2);
    o.set_level_zero_stop_writes_trigger(4);
    assert_eq!(stall_condition(0, 0, &o), DBWriteStallCondition::Normal);
    assert_eq!(stall_condition(100, 0, &o), DBWriteStallCondition::Normal);
    assert_eq!(stall_condition(101, 0, &o), DBWriteStallCondition::Delayed);
    assert_eq!(stall_condition(0, 2, &o), DBWriteStallCondition::Delayed);
    assert_eq!(stall_condition(300, 0, &o), DBWriteStallCondition::Delayed);
    assert_eq!(stall_condition(301, 0, &o), DBWriteStallCondition::Stopped);
    o.set_level_zero_slowdown_writes_trigger(-1);
    assert_eq!(stall_condition(0, 3, &o), DBWriteStallCondition::Normal);
    assert_eq!(stall_condition(299, 3, &o), DBWriteStallCondition::Delayed);
    assert_eq!(stall_condition(0, 4, &o), DBWriteStallCondition::Stopped);
}

#[test]
fn memtable_info_counts_entries_and_deletes() {
    let mut db = DB::open(ColumnFamilyOptions::default());
    let empty = db.memtable_info();
    assert_eq!(empty.first_seqno(), 0);
    assert_eq!(empty.num_entries(), 0);
    db.put(&b("a"), &b("1")).unwrap();
    db.delete(&b("a")).unwrap();
    db.single_delete(&b("b")).unwrap();
    db.merge(&b("c"), &b("x")).unwrap();
    let info = db.memtable_info();
    assert_eq!(info.first_seqno(), 1);
    assert_eq!(info.earliest_seqno(), 1);
    assert_eq!(info.num_entries(), 4);
    assert_eq!(info.num_deletes(), 2);
    assert_eq!(info.cf_name(), None);
}
