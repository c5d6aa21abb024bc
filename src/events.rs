//! What the store reports to observers: flush, compaction, memtable and
//! write-stall notifications, and background errors.
use vstd::prelude::*;
use crate::error::Error;
use crate::db::DB;

verus! {

/// The write-stall state of the store.
#[derive(Clone, Copy, Debug, PartialEq, Eq, Structural)]
pub enum DBWriteStallCondition {
    Normal,
    Delayed,
    Stopped,
}

/// Why a compaction ran.
#[derive(Clone, Copy, Debug, PartialEq, Eq, Structural)]
pub enum DBCompactionReason {
    Unknown,
    /// Level 0 holds at least the configured number of files.
    LevelL0FilesNum,
    /// A level's total size exceeds its target.
    LevelMaxLevelSize,
    /// Requested explicitly.
    ManualCompaction,
}

/// Which background job raised an error.
#[derive(Clone, Copy, Debug, PartialEq, Eq, Structural)]
pub enum DBBackgroundErrorReason {
    Flush,
    Compaction,
    WriteCallback,
    MemTable,
}

/// A completed or starting flush of the memtable into a level-0 file.
#[derive(Debug)]
pub struct FlushJobInfo {
    pub cf_name: Vec<u8>,
    pub file_number: u64,
    pub smallest_seqno: u64,
    pub largest_seqno: u64,
    pub triggered_writes_slowdown: bool,
    pub triggered_writes_stop: bool,
}

impl FlushJobInfo {
    /// The column family name, or `None` when it is empty.
    pub fn cf_name(&self) -> (r: Option<Vec<u8>>)
        ensures
            self.cf_name@.len() == 0 ==> r is None,
            self.cf_name@.len() > 0 ==> r is Some && r->0@ == self.cf_name@,
    {
        if self.cf_name.len() == 0 {
            None
        } else {
            Some(crate::types::copy_bytes(&self.cf_name))
        }
    }

    pub fn triggered_writes_slowdown(&self) -> (r: bool)
        ensures
            r == self.triggered_writes_slowdown,
    {
        self.triggered_writes_slowdown
    }

    pub fn triggered_writes_stop(&self) -> (r: bool)
        ensures
            r == self.triggered_writes_stop,
    {
        self.triggered_writes_stop
    }

    pub fn largest_seqno(&self) -> (r: u64)
        ensures
            r == self.largest_seqno,
    {
        self.largest_seqno
    }

    pub fn smallest_seqno(&self) -> (r: u64)
        ensures
            r == self.smallest_seqno,
    {
        self.smallest_seqno
    }
}

/// A compaction of the files of one level into the next.
#[derive(Debug)]
pub struct CompactionJobInfo {
    pub cf_name: Vec<u8>,
    pub status: Result<(), Error>,
    pub input_file_count: usize,
    pub output_file_count: usize,
    pub num_input_files_at_output_level: usize,
    pub base_input_level: usize,
    pub output_level: usize,
    pub input_records: u64,
    pub output_records: u64,
    /// Bytes charged to the input records and to the output records.
    pub total_input_bytes: u64,
    pub total_output_bytes: u64,
    pub num_corrupt_keys: u64,
    pub compaction_reason: DBCompactionReason,
}

impl CompactionJobInfo {
    pub fn status(&self) -> (r: Result<(), Error>)
        ensures
            r == self.status,
    {
        self.status
    }

    /// The column family name, or `None` when it is empty.
    pub fn cf_name(&self) -> (r: Option<Vec<u8>>)
        ensures
            self.cf_name@.len() == 0 ==> r is None,
            self.cf_name@.len() > 0 ==> r is Some && r->0@ == self.cf_name@,
    {
        if self.cf_name.len() == 0 {
            None
        } else {
            Some(crate::types::copy_bytes(&self.cf_name))
        }
    }

    pub fn input_file_count(&self) -> (r: usize)
        ensures
            r == self.input_file_count,
    {
        self.input_file_count
    }

    pub fn output_file_count(&self) -> (r: usize)
        ensures
            r == self.output_file_count,
    {
        self.output_file_count
    }

    pub fn num_input_files_at_output_level(&self) -> (r: usize)
        ensures
            r == self.num_input_files_at_output_level,
    {
        self.num_input_files_at_output_level
    }

    pub fn base_input_level(&self) -> (r: usize)
        ensures
            r == self.base_input_level,
    {
        self.base_input_level
    }

    pub fn output_level(&self) -> (r: usize)
        ensures
            r == self.output_level,
    {
        self.output_level
    }

    pub fn input_records(&self) -> (r: u64)
        ensures
            r == self.input_records,
    {
        self.input_records
    }

    pub fn output_records(&self) -> (r: u64)
        ensures
            r == self.output_records,
    {
        self.output_records
    }

    pub fn total_input_bytes(&self) -> (r: u64)
        ensures
            r == self.total_input_bytes,
    {
        self.total_input_bytes
    }

    pub fn total_output_bytes(&self) -> (r: u64)
        ensures
            r == self.total_output_bytes,
    {
        self.total_output_bytes
    }

    pub fn num_corrupt_keys(&self) -> (r: u64)
        ensures
            r == self.num_corrupt_keys,
    {
        self.num_corrupt_keys
    }

    pub fn compaction_reason(&self) -> (r: DBCompactionReason)
        ensures
            r == self.compaction_reason,
    {
        self.compaction_reason
    }
}

} // verus!

verus! {

/// A change of the write-stall condition.
#[derive(Debug)]
pub struct WriteStallInfo {
    pub cf_name: Vec<u8>,
    pub prev: DBWriteStallCondition,
    pub cur: DBWriteStallCondition,
}

impl WriteStallInfo {
    /// The column family name, or `None` when it is empty.
    pub fn cf_name(&self) -> (r: Option<Vec<u8>>)
        ensures
            self.cf_name@.len() == 0 ==> r is None,
            self.cf_name@.len() > 0 ==> r is Some && r->0@ == self.cf_name@,
    {
        if self.cf_name.len() == 0 {
            None
        } else {
            Some(crate::types::copy_bytes(&self.cf_name))
        }
    }

    pub fn cur(&self) -> (r: DBWriteStallCondition)
        ensures
            r == self.cur,
    {
        self.cur
    }

    pub fn prev(&self) -> (r: DBWriteStallCondition)
        ensures
            r == self.prev,
    {
        self.prev
    }
}

/// A memtable that was frozen for flushing.
#[derive(Debug)]
pub struct MemTableInfo {
    pub cf_name: Vec<u8>,
    pub first_seqno: u64,
    pub earliest_seqno: u64,
    pub num_entries: u64,
    pub num_deletes: u64,
}

impl MemTableInfo {
    /// The column family name, or `None` when it is empty.
    pub fn cf_name(&self) -> (r: Option<Vec<u8>>)
        ensures
            self.cf_name@.len() == 0 ==> r is None,
            self.cf_name@.len() > 0 ==> r is Some && r->0@ == self.cf_name@,
    {
        if self.cf_name.len() == 0 {
            None
        } else {
            Some(crate::types::copy_bytes(&self.cf_name))
        }
    }

    pub fn first_seqno(&self) -> (r: u64)
        ensures
            r == self.first_seqno,
    {
        self.first_seqno
    }

    pub fn earliest_seqno(&self) -> (r: u64)
        ensures
            r == self.earliest_seqno,
    {
        self.earliest_seqno
    }

    pub fn num_entries(&self) -> (r: u64)
        ensures
            r == self.num_entries,
    {
        self.num_entries
    }

    pub fn num_deletes(&self) -> (r: u64)
        ensures
            r == self.num_deletes,
    {
        self.num_deletes
    }
}

/// The status handed to observers of a background error. An observer that
/// resets it lets the store accept writes again.
#[derive(Debug)]
pub struct MutableStatus {
    pub result: Result<(), String>,
}

impl MutableStatus {
    /// Clears the error.
    pub fn reset(&mut self)
        ensures
            final(self).result is Ok,
    {
        self.result = Ok(());
    }

    /// The current status.
    pub fn result(&self) -> (r: Result<(), String>)
        ensures
            self.result is Ok ==> r is Ok,
            self.result is Err ==> r is Err && r->Err_0@ == self.result->Err_0@,
    {
        match &self.result {
            Ok(()) => Ok(()),
            Err(e) => Err(e.clone()),
        }
    }
}

} // verus!

verus! {

/// One sub-range of a compaction; this store runs each compaction as a
/// single sub-compaction.
#[derive(Debug)]
pub struct SubcompactionJobInfo {
    pub cf_name: Vec<u8>,
    pub thread_id: u64,
    pub base_input_level: usize,
    pub output_level: usize,
}

impl SubcompactionJobInfo {
    pub fn thread_id(&self) -> (r: u64)
        ensures
            r == self.thread_id,
    {
        self.thread_id
    }

    pub fn base_input_level(&self) -> (r: usize)
        ensures
            r == self.base_input_level,
    {
        self.base_input_level
    }

    pub fn output_level(&self) -> (r: usize)
        ensures
            r == self.output_level,
    {
        self.output_level
    }
}

/// An external file that joined the store.
#[derive(Debug)]
pub struct IngestionInfo {
    pub cf_name: Vec<u8>,
}

impl IngestionInfo {
    /// The column family name, or `None` when it is empty.
    pub fn cf_name(&self) -> (r: Option<Vec<u8>>)
        ensures
            self.cf_name@.len() == 0 ==> r is None,
            self.cf_name@.len() > 0 ==> r is Some && r->0@ == self.cf_name@,
    {
        if self.cf_name.len() == 0 {
            None
        } else {
            Some(crate::types::copy_bytes(&self.cf_name))
        }
    }
}

/// Callbacks for the store's events. They run on the thread that handles
/// the event and should return quickly.
pub trait EventListener {
    fn on_flush_begin(&self, info: &FlushJobInfo);

    fn on_flush_completed(&self, info: &FlushJobInfo);

    fn on_compaction_begin(&self, info: &CompactionJobInfo);

    fn on_compaction_completed(&self, info: &CompactionJobInfo);

    fn on_subcompaction_begin(&self, info: &SubcompactionJobInfo);

    fn on_subcompaction_completed(&self, info: &SubcompactionJobInfo);

    fn on_external_file_ingested(&self, info: &IngestionInfo);

    fn on_stall_conditions_changed(&self, info: &WriteStallInfo);

    fn on_memtable_sealed(&self, info: &MemTableInfo);

    /// A background job failed; resetting `status` lets writes resume.
    fn on_background_error(&self, reason: DBBackgroundErrorReason, status: &mut MutableStatus);
}

/// A listener registered with a store.
pub struct DBEventListener<E: EventListener> {
    pub listener: E,
}

/// Registers `e` as a listener.
pub fn new_event_listener<E: EventListener>(e: E) -> (r: DBEventListener<E>)
    ensures
        r.listener == e,
{
    DBEventListener { listener: e }
}

/// A description of a background error of kind `reason`.
fn describe(reason: DBBackgroundErrorReason) -> (r: String) {
    match reason {
        DBBackgroundErrorReason::Flush => "background flush failed".to_owned(),
        DBBackgroundErrorReason::Compaction => "background compaction failed".to_owned(),
        DBBackgroundErrorReason::WriteCallback => "write callback failed".to_owned(),
        DBBackgroundErrorReason::MemTable => "memtable failed".to_owned(),
    }
}

impl<E: EventListener> DBEventListener<E> {
    /// Hands every recorded write-stall transition of `db` to the listener,
    /// oldest first, and clears them.
    pub fn deliver_stall_changes(&self, db: &mut DB)
        requires
            old(db).wf(),
        ensures
            final(db).wf(),
            final(db).stall_events@.len() == 0,
            *final(db) == (DB { stall_events: final(db).stall_events, ..*old(db) }),
    {
        let events = db.take_stall_events();
        let mut i: usize = 0;
        while i < events.len()
            invariant
                0 <= i <= events.len(),
            decreases events.len() - i,
        {
            self.listener.on_stall_conditions_changed(&events[i]);
            i = i + 1;
        }
    }

    /// Flushes `db`, telling the listener of the sealed memtable, the flush
    /// beginning and completing, and any write-stall transition. The store
    /// changes as `DB::flush` says.
    pub fn flush(&self, db: &mut DB) -> (r: Result<FlushJobInfo, Error>)
        requires
            old(db).wf(),
        ensures
            final(db).wf(),
            final(db).log() == old(db).log(),
            forall|k: Seq<u8>, t: u64| #[trigger] final(db).value(k, t) == old(db).value(k, t),
            old(db).mem@.len() > 0 && old(db).next_file_id == u64::MAX ==> r == Err::<FlushJobInfo, Error>(Error::InvalidArgument),
            old(db).mem@.len() == 0 || old(db).next_file_id < u64::MAX ==> r is Ok && final(db).mem@.len() == 0
                && final(db).stall_events@.len() == 0,
    {
        if db.mem.len() > 0 && db.next_file_id == u64::MAX {
            return Err(Error::InvalidArgument);
        }
        if db.mem.len() == 0 {
            let r = db.flush();
            let ghost mid = *db;
            self.deliver_stall_changes(db);
            proof {
                assert(db.runs() =~= mid.runs());
                assert forall|k: Seq<u8>, t: u64| #[trigger] db.value(k, t) == old(db).value(k, t) by {
                    assert(mid.value(k, t) == old(db).value(k, t));
                }
            }
            return r;
        }
        let sealed = db.memtable_info();
        self.listener.on_memtable_sealed(&sealed);
        let begin = FlushJobInfo {
            cf_name: Vec::new(),
            file_number: db.next_file_id,
            smallest_seqno: sealed.first_seqno,
            largest_seqno: db.latest_sequence_number(),
            triggered_writes_slowdown: false,
            triggered_writes_stop: false,
        };
        self.listener.on_flush_begin(&begin);
        let r = db.flush();
        match &r {
            Ok(info) => self.listener.on_flush_completed(info),
            Err(_) => {},
        }
        let ghost mid = *db;
        self.deliver_stall_changes(db);
        proof {
            assert(db.runs() =~= mid.runs());
            assert forall|k: Seq<u8>, t: u64| #[trigger] db.value(k, t) == old(db).value(k, t) by {
                assert(mid.value(k, t) == old(db).value(k, t));
            }
        }
        r
    }

    /// Compacts `level` of `db` into the next level, telling the listener of
    /// the compaction and its single sub-compaction beginning and completing,
    /// and any write-stall transition. The store changes as
    /// `DB::compact_level` says.
    pub fn compact(&self, db: &mut DB, level: usize, reason: DBCompactionReason) -> (r: Result<CompactionJobInfo, Error>)
        requires
            old(db).wf(),
        ensures
            final(db).wf(),
            final(db).log() == old(db).log(),
            forall|k: Seq<u8>, s: u64| old(db).live(s) ==> #[trigger] final(db).value(k, s) == old(db).value(k, s),
            (level == usize::MAX || old(db).next_file_id == u64::MAX) ==> r == Err::<CompactionJobInfo, Error>(
                Error::InvalidArgument),
            (level < usize::MAX && old(db).next_file_id < u64::MAX) ==> r is Ok && r->Ok_0.base_input_level == level
                && r->Ok_0.compaction_reason == reason,
    {
        if level == usize::MAX || db.next_file_id == u64::MAX {
            return Err(Error::InvalidArgument);
        }
        let begin = CompactionJobInfo {
            cf_name: Vec::new(),
            status: Ok(()),
            input_file_count: 0,
            output_file_count: 0,
            num_input_files_at_output_level: 0,
            base_input_level: level,
            output_level: level + 1,
            input_records: 0,
            output_records: 0,
            total_input_bytes: 0,
            total_output_bytes: 0,
            num_corrupt_keys: 0,
            compaction_reason: reason,
        };
        self.listener.on_compaction_begin(&begin);
        let sub = SubcompactionJobInfo { cf_name: Vec::new(), thread_id: 0, base_input_level: level, output_level: level + 1 };
        self.listener.on_subcompaction_begin(&sub);
        let r = db.compact_level(level, reason);
        self.listener.on_subcompaction_completed(&sub);
        match &r {
            Ok(info) => self.listener.on_compaction_completed(info),
            Err(_) => {},
        }
        let ghost mid = *db;
        self.deliver_stall_changes(db);
        proof {
            assert(db.runs() =~= mid.runs());
            assert forall|k: Seq<u8>, s: u64| old(db).live(s) implies #[trigger] db.value(k, s) == old(db).value(k, s) by {
                assert(mid.value(k, s) == old(db).value(k, s));
            }
        }
        r
    }

    /// Raises a background error of kind `reason` in `db` and hands the
    /// listener a status describing it; a listener that resets the status
    /// lets `db` accept writes again. Returns the status as the listener
    /// left it.
    pub fn background_error(&self, db: &mut DB, reason: DBBackgroundErrorReason) -> (r: MutableStatus)
        requires
            old(db).wf(),
        ensures
            final(db).wf(),
            r.result is Ok ==> *final(db) == (DB { bg_error: None, ..*old(db) }),
            r.result is Err ==> *final(db) == (DB { bg_error: Some(reason), ..*old(db) }),
    {
        db.set_background_error(reason);
        let mut status = MutableStatus { result: Err(describe(reason)) };
        self.listener.on_background_error(reason, &mut status);
        db.resume(&status);
        status
    }
}

} // verus!
