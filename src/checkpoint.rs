//! Point-in-time copies of a store that open as independent instances.
use vstd::prelude::*;
use crate::compaction::dup_records;
use crate::db::{DB, SstFile, count_level};
use crate::error::Error;
use crate::model::{at, same, in_runs, covered, lemma_rearranged, lemma_in_covered, lemma_in_single};
use crate::order::{sorted, sort_records, lemma_sorted_same};
use crate::write_controller::stall_condition;
use crate::manifest::{snapshot_edit, lemma_replay_snapshot};

verus! {

/// Copies of `files`, record for record.
pub fn copy_files(files: &Vec<SstFile>) -> (r: Vec<SstFile>)
    ensures
        r@.len() == files@.len(),
        forall|i: int| 0 <= i < files@.len() ==> {
            &&& (#[trigger] r@[i]).id == files@[i].id
            &&& r@[i].level == files@[i].level
            &&& r@[i].records@.len() == files@[i].records@.len()
            &&& forall|j: int| 0 <= j < files@[i].records@.len() ==> same(#[trigger] r@[i].records@[j], files@[i].records@[j])
        },
{
    let mut r: Vec<SstFile> = Vec::new();
    let mut i: usize = 0;
    while i < files.len()
        invariant
            0 <= i <= files.len(),
            r@.len() == i,
            forall|x: int| 0 <= x < i ==> {
                &&& (#[trigger] r@[x]).id == files@[x].id
                &&& r@[x].level == files@[x].level
                &&& r@[x].records@.len() == files@[x].records@.len()
                &&& forall|j: int| 0 <= j < files@[x].records@.len() ==> same(#[trigger] r@[x].records@[j], files@[x].records@[j])
            },
        decreases files.len() - i,
    {
        let f = &files[i];
        r.push(SstFile { id: f.id, level: f.level, records: dup_records(&f.records) });
        i = i + 1;
    }
    r
}

/// A consistent, read-only point-in-time copy of a store: its files, with
/// the memtable written out as one more level-0 file.
pub struct Checkpoint {
    pub image: DB,
}

impl Checkpoint {
    /// Captures `db` as it is now. Fails with `InvalidArgument` when no file
    /// number is left for the memtable's file.
    pub fn new(db: &DB) -> (r: Result<Checkpoint, Error>)
        requires
            db.wf(),
        ensures
            db.next_file_id == u64::MAX ==> r == Err::<Checkpoint, Error>(Error::InvalidArgument),
            db.next_file_id < u64::MAX ==> r is Ok && r->Ok_0.wf() && r->Ok_0.image.last_sequence()
                == db.last_sequence() && r->Ok_0.image.log() == db.log() && forall|k: Seq<u8>, t: u64|
                #[trigger] r->Ok_0.image.value(k, t) == db.value(k, t),
    {
        if db.next_file_id == u64::MAX {
            return Err(Error::InvalidArgument);
        }
        let mut files = copy_files(&db.files);
        let ghost copied = files@;
        let mem_copy = dup_records(&db.mem);
        let ghost mc = mem_copy@;
        let mem_sorted = sort_records(mem_copy);
        let ghost ms = mem_sorted@;
        let mem_file = SstFile { id: db.next_file_id, level: 0, records: mem_sorted };
        files.push(mem_file);
        let edit = snapshot_edit(&files);
        let ghost fs = files@;
        let mut manifest = Vec::new();
        manifest.push(edit);
        let image0 = DB {
            mem: Vec::new(),
            files,
            last_seq: db.last_seq,
            next_file_id: db.next_file_id + 1,
            snapshots: Vec::new(),
            history: Ghost(db.history@),
            opts: db.opts,
            mem_bytes: 0,
            stall: crate::events::DBWriteStallCondition::Normal,
            bg_error: None,
            closing: false,
            stall_events: Vec::new(),
            wal: crate::types::copy_bytes(&db.wal),
            manifest,
        };
        let l0 = image0.level_file_count(0);
        let stall = stall_condition(0, l0, &db.opts);
        let image = DB { stall, ..image0 };
        proof {
            let r1 = db.runs();
            let r2 = image.runs();
            let n = db.files@.len() as int;
            lemma_replay_snapshot(image.manifest@, image.files@);
            assert forall|i: int, j: int| 0 <= i < j < image.files@.len() implies (#[trigger] image.files@[i]).id != (#[trigger] image.files@[j]).id by {
                assert(image.files@ == fs);
                if j < n {
                    assert(fs[i].id == db.files@[i].id && fs[j].id == db.files@[j].id);
                } else {
                    assert(fs[i].id == db.files@[i].id);
                }
            }
            assert(image.files@ == image0.files@);
            assert(r2[n + 1] == ms);
            assert forall|i: int, j: int| at(r2, i, j) implies in_runs(r1, #[trigger] r2[i][j]) by {
                if i == n + 1 {
                    assert(at(seq![ms], 0, j) && same(seq![ms][0][j], r2[i][j]));
                    lemma_in_covered(seq![ms], seq![mc], r2[i][j]);
                    let (a, b) = choose|a: int, b: int| at(seq![mc], a, b) && same(#[trigger] seq![mc][a][b], r2[i][j]);
                    assert(same(r1[0][b], seq![mc][a][b]));
                    assert(same(r1[0][b], r2[i][j]));
                } else {
                    assert(i >= 1);
                    assert(r2[i][j] == copied[i - 1].records@[j]);
                    assert(same(r1[i][j], r2[i][j]));
                }
            }
            assert forall|i: int, j: int| at(r1, i, j) implies in_runs(r2, #[trigger] r1[i][j]) by {
                if i == 0 {
                    assert(same(mc[j], r1[i][j]));
                    assert(at(seq![mc], 0, j) && same(seq![mc][0][j], r1[i][j]));
                    lemma_in_covered(seq![mc], seq![ms], r1[i][j]);
                    lemma_in_single(ms, r2, n + 1, r1[i][j]);
                } else {
                    assert(r2[i][j] == copied[i - 1].records@[j]);
                    assert(same(r2[i][j], r1[i][j]));
                }
            }
            lemma_rearranged(r1, r2);
            assert forall|i: int, j: int| at(r2, i, j) implies 1 <= (#[trigger] r2[i][j]).seq <= image.last_seq by {
                assert(in_runs(r1, r2[i][j]));
            }
            assert forall|i: int| 0 <= i < image.files@.len() implies #[trigger] image.files@[i].id < image.next_file_id
                && sorted(image.files@[i].records@) by {
                if i < n {
                    assert(image.files@[i].id == db.files@[i].id);
                    assert(image.files@[i] == copied[i]);
                    assert(sorted(db.files@[i].records@));
                    lemma_sorted_same(db.files@[i].records@, copied[i].records@);
                }
            }
            assert forall|k: Seq<u8>, s: u64| image.live(s) implies #[trigger] crate::model::value_at(image.runs(), k, s)
                == crate::model::ref_value(image.history@, k, s as nat) by {
                assert(db.live(s));
                assert(crate::model::value_at(r1, k, s) == crate::model::ref_value(db.history@, k, s as nat));
            }
            assert forall|k: Seq<u8>, t: u64| #[trigger] image.value(k, t) == db.value(k, t) by {
                assert(crate::model::value_at(r2, k, t) == crate::model::value_at(r1, k, t));
            }
        }
        Ok(Checkpoint { image })
    }

    pub open spec fn wf(&self) -> bool {
        self.image.wf()
    }

    /// Opens the checkpoint as an independent store holding exactly the
    /// captured contents.
    pub fn create_checkpoint(&self) -> (r: DB)
        requires
            self.wf(),
        ensures
            r.wf(),
            r.last_sequence() == self.image.last_sequence(),
            r.log() == self.image.log(),
            forall|k: Seq<u8>, t: u64| #[trigger] r.value(k, t) == self.image.value(k, t),
    {
        let db = &self.image;
        let files = copy_files(&db.files);
        let edit = snapshot_edit(&files);
        let ghost fs = files@;
        let mut manifest = Vec::new();
        manifest.push(edit);
        let r = DB {
            mem: dup_records(&db.mem),
            files,
            last_seq: db.last_seq,
            next_file_id: db.next_file_id,
            snapshots: Vec::new(),
            history: Ghost(db.history@),
            opts: db.opts,
            mem_bytes: db.mem_bytes,
            stall: db.stall,
            bg_error: None,
            closing: false,
            stall_events: Vec::new(),
            wal: crate::types::copy_bytes(&db.wal),
            manifest,
        };
        proof {
            let r1 = db.runs();
            let r2 = r.runs();
            lemma_replay_snapshot(r.manifest@, r.files@);
            assert forall|i: int, j: int| 0 <= i < j < r.files@.len() implies (#[trigger] r.files@[i]).id != (#[trigger] r.files@[j]).id by {
                assert(r.files@[i].id == db.files@[i].id && r.files@[j].id == db.files@[j].id);
            }
            assert forall|i: int, j: int| at(r2, i, j) implies in_runs(r1, #[trigger] r2[i][j]) by {
                assert(same(r1[i][j], r2[i][j]));
            }
            assert forall|i: int, j: int| at(r1, i, j) implies in_runs(r2, #[trigger] r1[i][j]) by {
                assert(same(r2[i][j], r1[i][j]));
            }
            lemma_rearranged(r1, r2);
            assert forall|i: int, j: int| at(r2, i, j) implies 1 <= (#[trigger] r2[i][j]).seq <= r.last_seq by {
                assert(same(r1[i][j], r2[i][j]));
            }
            assert(count_level(r.files@, 0) == count_level(db.files@, 0)) by {
                crate::db::lemma_count_level_same(r.files@, db.files@, 0);
            }
            assert forall|i: int| 0 <= i < r.files@.len() implies sorted(#[trigger] r.files@[i].records@) by {
                assert(sorted(db.files@[i].records@));
                lemma_sorted_same(db.files@[i].records@, r.files@[i].records@);
            }
            assert forall|a: int, b: int| 0 <= a < b < r.mem@.len() implies (#[trigger] r.mem@[a]).seq < (#[trigger] r.mem@[b]).seq by {
                assert(r2[0][a] == r.mem@[a] && r1[0][a] == db.mem@[a]);
                assert(r2[0][b] == r.mem@[b] && r1[0][b] == db.mem@[b]);
            }
            assert forall|k: Seq<u8>, s: u64| r.live(s) implies #[trigger] crate::model::value_at(r.runs(), k, s)
                == crate::model::ref_value(r.history@, k, s as nat) by {
                assert(db.live(s));
                assert(crate::model::value_at(r1, k, s) == crate::model::ref_value(db.history@, k, s as nat));
            }
        }
        r
    }
}

} // verus!
