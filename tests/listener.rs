use rust_rocksdb::db::{WriteAction, DB};
use rust_rocksdb::error::Error;
use rust_rocksdb::events::{
    new_event_listener, CompactionJobInfo, DBBackgroundErrorReason, DBCompactionReason, DBEventListener,
    DBWriteStallCondition, EventListener, FlushJobInfo, IngestionInfo, MemTableInfo, MutableStatus,
    SubcompactionJobInfo, WriteStallInfo,
};
use rust_rocksdb::options::ColumnFamilyOptions;
use std::cell::{Cell, RefCell};

#[derive(Default)]
struct Counter {
    flush_begin: Cell<usize>,
    flush: Cell<usize>,
    sealed: Cell<usize>,
    compaction_begin: Cell<usize>,
    compaction: Cell<usize>,
    subcompactions: Cell<usize>,
    input_records: Cell<u64>,
    output_records: Cell<u64>,
    input_bytes: Cell<u64>,
    output_bytes: Cell<u64>,
    manual_compaction: Cell<usize>,
    stall_conditions_changed_num: Cell<usize>,
    triggered_writes_slowdown: Cell<usize>,
    triggered_writes_stop: Cell<usize>,
    stall_change_from_normal_to_other: Cell<usize>,
    stalls: RefCell<Vec<(DBWriteStallCondition, DBWriteStallCondition)>>,
    background_error: Cell<usize>,
    clear_errors: bool,
}

fn bump(c: &Cell<usize>) {
    c.set(c.get() + 1);
}

impl EventListener for Counter {
    fn on_flush_begin(&self, _info: &FlushJobInfo) {
        bump(&self.flush_begin);
    }
    fn on_flush_completed(&self, info: &FlushJobInfo) {
        bump(&self.flush);
        assert!(info.smallest_seqno() <= info.largest_seqno());
        if info.triggered_writes_slowdown() {
            bump(&self.triggered_writes_slowdown);
        }
        if info.triggered_writes_stop() {
            bump(&self.triggered_writes_stop);
        }
    }
    fn on_compaction_begin(&self, _info: &CompactionJobInfo) {
        bump(&self.compaction_begin);
    }
    fn on_compaction_completed(&self, info: &CompactionJobInfo) {
        info.status().unwrap();
        assert_ne!(info.input_file_count(), 0);
        assert_ne!(info.output_file_count(), 0);
        assert_eq!(info.num_corrupt_keys(), 0);
        bump(&self.compaction);
        self.input_records.set(self.input_records.get() + info.input_records());
        self.output_records.set(self.output_records.get() + info.output_records());
        self.input_bytes.set(self.input_bytes.get() + info.total_input_bytes());
        self.output_bytes.set(self.output_bytes.get() + info.total_output_bytes());
        if info.compaction_reason() == DBCompactionReason::ManualCompaction {
            bump(&self.manual_compaction);
        }
    }
    fn on_subcompaction_begin(&self, _info: &SubcompactionJobInfo) {
        bump(&self.subcompactions);
    }
    fn on_subcompaction_completed(&self, info: &SubcompactionJobInfo) {
        assert_eq!(info.output_level(), info.base_input_level() + 1);
    }
    fn on_external_file_ingested(&self, _info: &IngestionInfo) {}
    fn on_stall_conditions_changed(&self, info: &WriteStallInfo) {
        bump(&self.stall_conditions_changed_num);
        if info.prev() == DBWriteStallCondition::Normal && info.cur() != DBWriteStallCondition::Normal {
            bump(&self.stall_change_from_normal_to_other);
        }
        self.stalls.borrow_mut().push((info.prev(), info.cur()));
    }
    fn on_memtable_sealed(&self, _info: &MemTableInfo) {
        bump(&self.sealed);
    }
    fn on_background_error(&self, _reason: DBBackgroundErrorReason, status: &mut MutableStatus) {
        bump(&self.background_error);
        assert!(status.result().is_err());
        if self.clear_errors {
            status.reset();
        }
    }
}

fn put_waiting(l: &DBEventListener<Counter>, db: &mut DB, k: &[u8], v: &[u8]) -> u64 {
    let (k, v) = (k.to_vec(), v.to_vec());
    let mut r = db.put(&k, &v);
    loop {
        match db.after_write(r) {
            WriteAction::Done(seq) | WriteAction::PauseThenDone(seq) => return seq,
            WriteAction::FlushThenDone(seq) => {
                l.flush(db).unwrap();
                r = Ok(seq);
            }
            WriteAction::FlushThenRetry => {
                l.flush(db).unwrap();
                r = db.put(&k, &v);
            }
            WriteAction::CompactLevel0ThenRetry => {
                l.compact(db, 0, DBCompactionReason::LevelL0FilesNum).unwrap();
                r = db.put(&k, &v);
            }
            WriteAction::Fail(e) => panic!("write failed: {e:?}"),
        }
    }
}

#[test]
fn test_event_listener_stall_conditions_changed() {
    let mut opts = ColumnFamilyOptions::default();
    opts.set_level_zero_slowdown_writes_trigger(1);
    opts.set_level_zero_stop_writes_trigger(1);
    opts.set_level_zero_file_num_compaction_trigger(1);
    let mut db = DB::open(opts);
    let l = new_event_listener(Counter::default());
    for i in 1..5 {
        let k = format!("{i:04}").into_bytes();
        put_waiting(&l, &mut db, &k, &k);
        l.flush(&mut db).unwrap();
    }
    let c = &l.listener;
    assert_ne!(c.flush.get(), 0);
    assert_ne!(c.stall_conditions_changed_num.get(), 0);
    assert_ne!(c.triggered_writes_slowdown.get(), 0);
    assert_ne!(c.triggered_writes_stop.get(), 0);
    assert_ne!(c.stall_change_from_normal_to_other.get(), 0);
    for i in 1..5 {
        let k = format!("{i:04}").into_bytes();
        assert_eq!(db.get(&k), Some(k.clone()));
    }
}

#[test]
fn test_event_listener_basic() {
    let mut db = DB::open(ColumnFamilyOptions::default());
    let l = new_event_listener(Counter::default());
    for i in 1..8000 {
        let k = format!("{i:04}").into_bytes();
        db.put(&k, &k).unwrap();
    }
    l.flush(&mut db).unwrap();
    assert_ne!(l.listener.flush.get(), 0);
    for i in 1..8000 {
        let k = format!("{i:04}").into_bytes();
        db.put(&k, &k).unwrap();
    }
    l.flush(&mut db).unwrap();
    let flush_cnt = l.listener.flush.get();
    assert_eq!(l.listener.compaction.get(), 0);
    l.compact(&mut db, 0, DBCompactionReason::ManualCompaction).unwrap();
    let c = &l.listener;
    assert_eq!(c.flush.get(), flush_cnt);
    assert_eq!(c.flush_begin.get(), flush_cnt);
    assert_eq!(c.sealed.get(), flush_cnt);
    assert_ne!(c.compaction.get(), 0);
    assert_eq!(c.compaction_begin.get(), c.compaction.get());
    assert_eq!(c.subcompactions.get(), 1);
    assert!(c.input_records.get() > c.output_records.get());
    assert!(c.input_bytes.get() > c.output_bytes.get());
    assert_eq!(c.manual_compaction.get(), 1);
}

#[test]
fn test_event_listener_background_error() {
    let mut db = DB::open(ColumnFamilyOptions::default());
    let l = new_event_listener(Counter::default());
    for i in 1..10 {
        db.put(&format!("{i:04}").into_bytes(), &b"value".to_vec()).unwrap();
        l.flush(&mut db).unwrap();
    }
    assert_eq!(l.listener.background_error.get(), 0);
}

#[test]
fn test_event_listener_status_reset() {
    let mut db = DB::open(ColumnFamilyOptions::default());
    let l = new_event_listener(Counter { clear_errors: true, ..Counter::default() });
    for i in 1..5 {
        db.put(&format!("{i:04}").into_bytes(), &b"value".to_vec()).unwrap();
    }
    l.flush(&mut db).unwrap();
    let status = l.background_error(&mut db, DBBackgroundErrorReason::Compaction);
    assert!(status.result().is_ok());
    for i in 1..5 {
        db.put(&format!("{i:04}").into_bytes(), &b"value".to_vec()).unwrap();
    }
    l.compact(&mut db, 0, DBCompactionReason::ManualCompaction).unwrap();
    l.flush(&mut db).unwrap();
    assert_eq!(l.listener.background_error.get(), 1);
}

#[test]
fn unreset_background_error_keeps_writes_refused() {
    let mut db = DB::open(ColumnFamilyOptions::default());
    let l = new_event_listener(Counter::default());
    let status = l.background_error(&mut db, DBBackgroundErrorReason::Flush);
    assert_eq!(status.result(), Err("background flush failed".to_string()));
    assert_eq!(db.put(&b"k".to_vec(), &b"v".to_vec()), Err(Error::Background));
}

#[test]
fn listener_sees_stall_transitions_in_order() {
    let mut opts = ColumnFamilyOptions::default();
    opts.set_level_zero_slowdown_writes_trigger(1);
    opts.set_level_zero_stop_writes_trigger(2);
    let mut db = DB::open(opts);
    let l = new_event_listener(Counter::default());
    db.put(&b"a".to_vec(), &b"1".to_vec()).unwrap();
    l.flush(&mut db).unwrap();
    db.put(&b"b".to_vec(), &b"2".to_vec()).unwrap();
    l.flush(&mut db).unwrap();
    assert_eq!(
        *l.listener.stalls.borrow(),
        vec![
            (DBWriteStallCondition::Normal, DBWriteStallCondition::Delayed),
            (DBWriteStallCondition::Delayed, DBWriteStallCondition::Stopped)
        ]
    );
    assert!(db.take_stall_events().is_empty());
}
