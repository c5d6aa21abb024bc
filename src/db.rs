//! The store: a memtable of recent writes and a set of immutable table
//! files organised into levels, read through sequence-number snapshots.
use vstd::prelude::*;
use crate::types::{EntryType, Record, copy_bytes, bytes_eq, concat_bytes};
use crate::compaction::{single, dup_records, compact_records};
use crate::events::{MemTableInfo, CompactionJobInfo, DBCompactionReason, DBWriteStallCondition, DBBackgroundErrorReason, WriteStallInfo, FlushJobInfo};
use crate::options::ColumnFamilyOptions;
use crate::write_controller::{stall_spec, stall_condition};
use crate::error::Error;
use crate::manifest::{VersionEdit, files_set, replay, apply_edit, snapshot_edit, lemma_replay_snapshot};
use crate::wal::{enc_log, encode_record, decode_log, same_all};
use crate::order::{sorted, sort_records, lemma_sorted_same, bytes_lt, compare_bytes, ikey_le, lemma_bytes_lt_transitive, lemma_bytes_lt_irreflexive};
use crate::model::{
    Runs, at, gap, unique_versions, value_at, apply, merge_onto, same, in_runs, agree,
    ref_value, lemma_newest, lemma_agree_value, lemma_ref_prefix, covered, shadowed, lemma_in_covered,
};

verus! {

/// An immutable table file: its number, its level and its records.
pub struct SstFile {
    pub id: u64,
    pub level: usize,
    pub records: Vec<Record>,
}

/// A single-writer LSM store.
pub struct DB {
    pub mem: Vec<Record>,
    pub files: Vec<SstFile>,
    pub last_seq: u64,
    pub next_file_id: u64,
    pub snapshots: Vec<u64>,
    /// Every write ever acknowledged, in sequence-number order.
    pub history: Ghost<Seq<Record>>,
    pub opts: ColumnFamilyOptions,
    /// Bytes charged to the memtable.
    pub mem_bytes: u64,
    pub stall: DBWriteStallCondition,
    /// The background error that stops writes, if one is raised.
    pub bg_error: Option<DBBackgroundErrorReason>,
    /// Set once closing has begun.
    pub closing: bool,
    /// Write-stall transitions not yet handed to observers.
    pub stall_events: Vec<WriteStallInfo>,
    /// The write-ahead log: every acknowledged write, journaled before it
    /// reaches the memtable.
    pub wal: Vec<u8>,
    /// The version edits that led to the current set of files.
    pub manifest: Vec<VersionEdit>,
}

/// Number of files of `files` at `level`.
pub open spec fn count_level(files: Seq<SstFile>, level: usize) -> nat
    decreases files.len(),
{
    if files.len() == 0 {
        0
    } else {
        count_level(files.drop_last(), level) + if files.last().level == level {
            1nat
        } else {
            0nat
        }
    }
}

/// What a write of `key` and `value` charges to the memtable: the bytes of
/// both plus eight for the sequence number and tag.
pub open spec fn charge(key: Seq<u8>, value: Seq<u8>) -> int {
    (key.len() + value.len() + 8) as int
}

/// `a + b`, saturating at `u64::MAX`.
pub open spec fn sat_add(a: int, b: int) -> u64 {
    if a + b > u64::MAX {
        u64::MAX
    } else {
        (a + b) as u64
    }
}

/// The control state of `a` and `b` (options, memtable charge, stall,
/// background error, closing, pending notifications) is the same.
pub open spec fn same_control(a: DB, b: DB) -> bool {
    &&& a.opts == b.opts
    &&& a.mem_bytes == b.mem_bytes
    &&& a.stall == b.stall
    &&& a.bg_error == b.bg_error
    &&& a.closing == b.closing
    &&& a.stall_events == b.stall_events
}

/// A fixed read horizon: reads bound to it see exactly the writes with
/// sequence numbers up to `seq`.
#[derive(Clone, Copy, Debug, PartialEq, Eq, Structural)]
pub struct Snapshot {
    pub seq: u64,
}

/// The runs after `x` is appended to the memtable.
pub open spec fn push_mem(r: Runs, x: Record) -> Runs {
    r.update(0, r[0].push(x))
}

/// Appending a record newer than every stored one keeps versions unique,
/// leaves every older horizon unchanged and gives the newest horizon the
/// record applied to what came before.
proof fn lemma_push_mem(r1: Runs, x: Record, last: u64)
    requires
        r1.len() >= 1,
        unique_versions(r1),
        forall|i: int, j: int| at(r1, i, j) ==> 1 <= (#[trigger] r1[i][j]).seq <= last,
        x.seq == last + 1,
    ensures
        unique_versions(push_mem(r1, x)),
        forall|i: int, j: int|
            at(push_mem(r1, x), i, j) ==> 1 <= (#[trigger] push_mem(r1, x)[i][j]).seq <= last + 1,
        forall|k: Seq<u8>, t: u64| t <= last ==> #[trigger] value_at(push_mem(r1, x), k, t) == value_at(r1, k, t),
        forall|k: Seq<u8>| #[trigger] value_at(push_mem(r1, x), k, (last + 1) as u64) == if x.key@ == k {
            apply(x.kind, x.value@, value_at(r1, k, last))
        } else {
            value_at(r1, k, last)
        },
{
    let r2 = push_mem(r1, x);
    assert forall|i: int, j: int| at(r2, i, j) implies r2[i][j] == (if i == 0 && j == r1[0].len() { x } else { r1[i][j] }) && (!(i == 0 && j == r1[0].len()) ==> at(r1, i, j)) by {}
    assert forall|k: Seq<u8>, t: u64| t <= last implies #[trigger] value_at(r2, k, t) == value_at(r1, k, t) by {
        assert forall|r: Record| r.key@ == k && -1 < r.seq <= t implies (in_runs(r1, r) <==> in_runs(r2, r)) by {
            if in_runs(r1, r) {
                let (i, j) = choose|i: int, j: int| at(r1, i, j) && same(#[trigger] r1[i][j], r);
                assert(r2[i][j] == r1[i][j]);
            }
        }
        lemma_agree_value(r1, r2, k, -1, t);
    }
    assert forall|k: Seq<u8>| #[trigger] value_at(r2, k, (last + 1) as u64) == if x.key@ == k {
        apply(x.kind, x.value@, value_at(r1, k, last))
    } else {
        value_at(r1, k, last)
    } by {
        assert(value_at(r2, k, last) == value_at(r1, k, last));
        if x.key@ == k {
            assert(r2[0][r1[0].len() as int] == x);
            crate::model::lemma_version_is(r2, k, 0, r1[0].len() as int);
        } else {
            assert(!crate::model::has_version(r2, k, (last + 1) as u64));
        }
    }
}

/// What a lookup yields with a pending merge: the operands seen so far,
/// `sfx`, applied on top of `p` when `m` holds.
pub open spec fn pending(p: Option<Seq<u8>>, m: bool, sfx: Seq<u8>) -> Option<Seq<u8>> {
    if m {
        Some(merge_onto(p, sfx))
    } else {
        p
    }
}

pub open spec fn view_opt(o: Option<Vec<u8>>) -> Option<Seq<u8>> {
    match o {
        Some(v) => Some(v@),
        None => None,
    }
}

/// The runs after a compaction: the memtable, the kept files, the output.
/// Every record they hold was there before, and every record that is gone
/// is superseded from horizon `m` on.
proof fn lemma_merge_runs(r1: Runs, r2: Runs, kr: Runs, ins: Runs, outs: Seq<Record>, m: u64)
    requires
        r1.len() >= 1,
        r2.len() == kr.len() + 2,
        r2[0] == r1[0],
        forall|x: int| 0 <= x < kr.len() ==> r2[x + 1] == #[trigger] kr[x],
        r2[kr.len() as int + 1] == outs,
        ins.len() == 1,
        covered(kr, r1),
        covered(ins, r1),
        covered(single(outs), ins),
        forall|i: int, j: int| at(r1, i, j) && i >= 1 ==> in_runs(kr, #[trigger] r1[i][j]) || in_runs(ins, r1[i][j]),
        forall|p: int| 0 <= p < ins[0].len() ==> in_runs(single(outs), #[trigger] ins[0][p]) || shadowed(ins, ins[0][p], m),
    ensures
        covered(r2, r1),
        forall|i: int, j: int| at(r1, i, j) ==> in_runs(r2, #[trigger] r1[i][j]) || shadowed(r1, r1[i][j], m),
{
    let nk = kr.len() as int;
    assert forall|i: int, j: int| at(r2, i, j) implies in_runs(r1, #[trigger] r2[i][j]) by {
        if i == 0 {
            assert(same(r1[0][j], r2[i][j]));
        } else if i <= nk {
            assert(at(kr, i - 1, j) && kr[i - 1][j] == r2[i][j]);
        } else {
            assert(at(single(outs), 0, j) && single(outs)[0][j] == r2[i][j]);
            assert(in_runs(single(outs), r2[i][j]));
            lemma_in_covered(single(outs), ins, r2[i][j]);
            lemma_in_covered(ins, r1, r2[i][j]);
        }
    }
    assert forall|i: int, j: int| at(r1, i, j) implies in_runs(r2, #[trigger] r1[i][j]) || shadowed(r1, r1[i][j], m) by {
        if i == 0 {
            assert(same(r2[0][j], r1[i][j]));
        } else if in_runs(kr, r1[i][j]) {
            let (a, b) = choose|a: int, b: int| at(kr, a, b) && same(#[trigger] kr[a][b], r1[i][j]);
            assert(r2[a + 1][b] == kr[a][b]);
        } else {
            let (a, b) = choose|a: int, b: int| at(ins, a, b) && same(#[trigger] ins[a][b], r1[i][j]);
            if in_runs(single(outs), ins[0][b]) {
                let (c, d) = choose|c: int, d: int| at(single(outs), c, d) && same(#[trigger] single(outs)[c][d], ins[0][b]);
                assert(r2[nk + 1][d] == single(outs)[c][d]);
                assert(same(r2[nk + 1][d], r1[i][j]));
            } else {
                assert(shadowed(ins, ins[0][b], m));
                let (c, d) = choose|c: int, d: int|
                    at(ins, c, d) && (#[trigger] ins[c][d]).key@ == ins[0][b].key@ && ins[0][b].seq < ins[c][d].seq <= m
                        && ins[c][d].kind.is_barrier();
                assert(in_runs(r1, ins[c][d]));
                let (e, g) = choose|e: int, g: int| at(r1, e, g) && same(#[trigger] r1[e][g], ins[c][d]);
                assert(r1[e][g].key@ == r1[i][j].key@);
            }
        }
    }
}

/// Every level but level 0 holds at most one file, so no two files of a
/// level below 0 can overlap.
pub open spec fn one_file_per_level(files: Seq<SstFile>) -> bool {
    forall|i: int, j: int|
        0 <= i < j < files.len() && (#[trigger] files[i]).level == (#[trigger] files[j]).level ==> files[i].level == 0
}

/// `k` begins with `p`.
pub open spec fn has_prefix(k: Seq<u8>, p: Seq<u8>) -> bool {
    p.len() <= k.len() && k.subrange(0, p.len() as int) == p
}

/// A key that begins with `p` does not sort below `p`.
pub proof fn lemma_prefix_not_below(k: Seq<u8>, p: Seq<u8>)
    requires
        has_prefix(k, p),
    ensures
        !bytes_lt(k, p),
    decreases p.len(),
{
    if p.len() > 0 {
        assert(k[0] == p[0]) by {
            assert(k.subrange(0, p.len() as int)[0] == k[0]);
        }
        assert(k.drop_first().subrange(0, p.drop_first().len() as int) =~= p.drop_first()) by {
            assert forall|j: int| 0 <= j < p.len() - 1 implies k.drop_first()[j] == p.drop_first()[j] by {
                assert(k.subrange(0, p.len() as int)[j + 1] == k[j + 1]);
            }
        }
        lemma_prefix_not_below(k.drop_first(), p.drop_first());
    }
}

/// Whether `k` begins with `p`.
pub fn starts_with(k: &Vec<u8>, p: &Vec<u8>) -> (r: bool)
    ensures
        r == has_prefix(k@, p@),
{
    if p.len() > k.len() {
        return false;
    }
    let mut i: usize = 0;
    while i < p.len()
        invariant
            p@.len() <= k@.len(),
            0 <= i <= p.len(),
            forall|j: int| 0 <= j < i ==> k@[j] == p@[j],
        decreases p.len() - i,
    {
        if k[i] != p[i] {
            assert(k@.subrange(0, p@.len() as int)[i as int] != p@[i as int]);
            return false;
        }
        i = i + 1;
    }
    assert(k@.subrange(0, p@.len() as int) =~= p@);
    true
}

/// Lists of files with the same levels, position by position, count the
/// same number of files at each level.
pub proof fn lemma_count_level_same(a: Seq<SstFile>, b: Seq<SstFile>, level: usize)
    requires
        a.len() == b.len(),
        forall|i: int| 0 <= i < a.len() ==> (#[trigger] a[i]).level == b[i].level,
    ensures
        count_level(a, level) == count_level(b, level),
    decreases a.len(),
{
    if a.len() > 0 {
        lemma_count_level_same(a.drop_last(), b.drop_last(), level);
    }
}

/// Bytes charged to `rs`, added with saturation onto `acc`.
pub open spec fn records_bytes(rs: Seq<Record>, acc: u64) -> u64
    decreases rs.len(),
{
    if rs.len() == 0 {
        acc
    } else {
        sat_add(records_bytes(rs.drop_last(), acc) as int, charge(rs.last().key@, rs.last().value@))
    }
}

/// Bytes charged to the files of `fs` at `level` (every file when `level`
/// is `None`), added with saturation.
pub open spec fn files_bytes(fs: Seq<SstFile>, level: Option<usize>) -> u64
    decreases fs.len(),
{
    if fs.len() == 0 {
        0
    } else {
        let prior = files_bytes(fs.drop_last(), level);
        match level {
            Some(l) => if fs.last().level == l {
                records_bytes(fs.last().records@, prior)
            } else {
                prior
            },
            None => records_bytes(fs.last().records@, prior),
        }
    }
}

fn add_records_bytes(rs: &Vec<Record>, acc: u64) -> (r: u64)
    ensures
        r == records_bytes(rs@, acc),
{
    let mut total = acc;
    let mut j: usize = 0;
    while j < rs.len()
        invariant
            0 <= j <= rs.len(),
            total == records_bytes(rs@.take(j as int), acc),
        decreases rs.len() - j,
    {
        assert(rs@.take(j + 1).drop_last() =~= rs@.take(j as int));
        let c = rs[j].key.len() as u128 + rs[j].value.len() as u128 + 8;
        let t = total as u128 + c;
        total = if t > u64::MAX as u128 { u64::MAX } else { t as u64 };
        j = j + 1;
    }
    assert(rs@.take(j as int) =~= rs@);
    total
}

/// Bytes charged to the files of `fs` at `level`, or to every file.
pub fn sum_files_bytes(fs: &Vec<SstFile>, level: Option<usize>) -> (r: u64)
    ensures
        r == files_bytes(fs@, level),
{
    let mut total: u64 = 0;
    let mut i: usize = 0;
    while i < fs.len()
        invariant
            0 <= i <= fs.len(),
            total == files_bytes(fs@.take(i as int), level),
        decreases fs.len() - i,
    {
        assert(fs@.take(i + 1).drop_last() =~= fs@.take(i as int));
        let counted = match level {
            Some(l) => fs[i].level == l,
            None => true,
        };
        if counted {
            total = add_records_bytes(&fs[i].records, total);
        }
        i = i + 1;
    }
    assert(fs@.take(i as int) =~= fs@);
    total
}

/// `a * b`, saturating at `u64::MAX`.
pub open spec fn sat_mul(a: int, b: int) -> u64 {
    if a * b > u64::MAX {
        u64::MAX
    } else {
        (a * b) as u64
    }
}

/// The size target of `level` (from 1 on): the base, multiplied once per
/// level below it, saturating.
pub open spec fn level_target(o: ColumnFamilyOptions, level: nat) -> u64
    decreases level,
{
    if level <= 1 {
        o.max_bytes_for_level_base
    } else {
        sat_mul(level_target(o, (level - 1) as nat) as int, o.max_bytes_for_level_multiplier as int)
    }
}

/// The first level from `l` on, below the last level, whose files exceed
/// its size target.
pub open spec fn oversized_from(files: Seq<SstFile>, o: ColumnFamilyOptions, l: nat) -> Option<usize>
    decreases (if o.num_levels > l { o.num_levels - l } else { 0 }) as nat,
{
    if l + 1 >= o.num_levels || l >= usize::MAX {
        None
    } else if files_bytes(files, Some(l as usize)) > level_target(o, l) {
        Some(l as usize)
    } else {
        oversized_from(files, o, l + 1)
    }
}

/// Which compaction is due: none when automatic compaction is disabled;
/// level 0 when it holds at least its trigger's count of files (and a level
/// lies below it); else the first oversized level; else none.
pub open spec fn pick_spec(files: Seq<SstFile>, o: ColumnFamilyOptions) -> Option<(usize, DBCompactionReason)> {
    if o.disable_auto_compactions {
        None
    } else if o.num_levels >= 2 && count_level(files, 0) >= o.level_zero_file_num_compaction_trigger {
        Some((0usize, DBCompactionReason::LevelL0FilesNum))
    } else {
        match oversized_from(files, o, 1) {
            Some(l) => Some((l, DBCompactionReason::LevelMaxLevelSize)),
            None => None,
        }
    }
}

/// `n` records the write-stall transition from `o`, if any: one
/// notification with the old and the new condition is appended when the
/// condition changed, and none otherwise.
pub open spec fn stall_recorded(o: DB, n: DB) -> bool {
    if o.stall != n.stall {
        &&& n.stall_events@.len() == o.stall_events@.len() + 1
        &&& n.stall_events@.subrange(0, o.stall_events@.len() as int) == o.stall_events@
        &&& n.stall_events@.last().prev == o.stall
        &&& n.stall_events@.last().cur == n.stall
    } else {
        n.stall_events@ == o.stall_events@
    }
}

/// The report of a compaction of `level` that read `inputs` from
/// `input_files` files (`at_output` of them at the output level) and wrote
/// `out` to one file.
fn job_info(
    inputs: &Vec<Record>,
    out: &Vec<Record>,
    input_files: usize,
    at_output: usize,
    level: usize,
    reason: DBCompactionReason,
) -> (r: CompactionJobInfo)
    requires
        level < usize::MAX,
    ensures
        r.base_input_level == level,
        r.output_level == level + 1,
        r.output_file_count == 1,
        r.input_file_count == input_files,
        r.num_input_files_at_output_level == at_output,
        r.compaction_reason == reason,
        r.status is Ok,
        r.input_records == inputs@.len() as u64,
        r.output_records == out@.len() as u64,
        r.total_input_bytes == records_bytes(inputs@, 0),
        r.total_output_bytes == records_bytes(out@, 0),
        r.num_corrupt_keys == 0,
{
    CompactionJobInfo {
        cf_name: Vec::new(),
        status: Ok(()),
        input_file_count: input_files,
        output_file_count: 1,
        num_input_files_at_output_level: at_output,
        base_input_level: level,
        output_level: level + 1,
        input_records: inputs.len() as u64,
        output_records: out.len() as u64,
        total_input_bytes: add_records_bytes(inputs, 0),
        total_output_bytes: add_records_bytes(out, 0),
        num_corrupt_keys: 0,
        compaction_reason: reason,
    }
}

/// After a compaction of `level`: the files are the kept ones followed by
/// the output, and the edit removes the inputs and adds the output.
proof fn lemma_merge_manifest(of: Seq<SstFile>, kb: Seq<SstFile>, nf: Seq<SstFile>, e: VersionEdit, level: usize, id: u64)
    requires
        level < usize::MAX,
        nf.len() == kb.len() + 1,
        forall|i: int| 0 <= i < kb.len() ==> nf[i] == kb[i],
        nf.last().id == id,
        nf.last().level == level + 1,
        e.added@ == seq![(id, (level + 1) as usize)],
        forall|idv: u64| #[trigger] e.removed@.contains(idv) <==> exists|i: int| 0 <= i < of.len() && (#[trigger] of[i]).id == idv
            && (of[i].level == level || of[i].level == level + 1),
        forall|p: (u64, usize)| #[trigger] files_set(kb).contains(p) <==> files_set(of).contains(p) && p.1 != level && p.1
            != level + 1,
        forall|i: int, j: int| 0 <= i < j < of.len() ==> (#[trigger] of[i]).id != (#[trigger] of[j]).id,
        forall|i: int, j: int| 0 <= i < j < kb.len() ==> (#[trigger] kb[i]).id != (#[trigger] kb[j]).id,
        forall|i: int| 0 <= i < kb.len() ==> (#[trigger] kb[i]).id < id,
    ensures
        files_set(nf) == apply_edit(files_set(of), e),
        forall|i: int, j: int| 0 <= i < j < nf.len() ==> (#[trigger] nf[i]).id != (#[trigger] nf[j]).id,
{
    let old_set = files_set(of);
    let kept_set = files_set(kb);
    assert forall|p: (u64, usize)| #[trigger] files_set(nf).contains(p) == apply_edit(old_set, e).contains(p) by {
        if files_set(nf).contains(p) {
            let i = choose|i: int| 0 <= i < nf.len() && (#[trigger] nf[i]).id == p.0 && nf[i].level == p.1;
            if i < kb.len() {
                assert(nf[i] == kb[i]);
                assert(kept_set.contains(p));
                let j = choose|j: int| 0 <= j < of.len() && (#[trigger] of[j]).id == p.0 && of[j].level == p.1;
                if e.removed@.contains(p.0) {
                    let k = choose|k: int| 0 <= k < of.len() && (#[trigger] of[k]).id == p.0
                        && (of[k].level == level || of[k].level == level + 1);
                    assert(j == k);
                }
            } else {
                assert(e.added@[0] == p);
            }
        }
        if apply_edit(old_set, e).contains(p) {
            if old_set.contains(p) && !e.removed@.contains(p.0) {
                let j = choose|j: int| 0 <= j < of.len() && (#[trigger] of[j]).id == p.0 && of[j].level == p.1;
                assert(!(of[j].level == level || of[j].level == level + 1));
                assert(kept_set.contains(p));
                let x = choose|x: int| 0 <= x < kb.len() && (#[trigger] kb[x]).id == p.0 && kb[x].level == p.1;
                assert(nf[x] == kb[x]);
            } else {
                let x = choose|x: int| 0 <= x < e.added@.len() && e.added@[x] == p;
                assert(nf[kb.len() as int].id == p.0);
            }
        }
    }
    assert(files_set(nf) =~= apply_edit(old_set, e));
    assert forall|i: int, j: int| 0 <= i < j < nf.len() implies (#[trigger] nf[i]).id != (#[trigger] nf[j]).id by {
        assert(nf[i] == kb[i]);
        if j < kb.len() {
            assert(nf[j] == kb[j]);
        }
    }
}

/// After a compaction of `level` with inputs `ins` (records of the files
/// at `level` and `level + 1`) and output `outs`: the records are as the
/// compaction law needs, and the files stay sorted with one per level
/// below 0.
proof fn lemma_merge_data(o: DB, n: DB, kb: Seq<SstFile>, ins: Seq<Record>, outs: Seq<Record>, m: u64, level: usize)
    requires
        o.wf_data(),
        level < usize::MAX,
        n.mem == o.mem,
        n.last_seq == o.last_seq,
        n.files@.len() == kb.len() + 1,
        forall|x: int| 0 <= x < kb.len() ==> n.files@[x] == kb[x],
        n.files@.last().records@ == outs,
        n.files@.last().level == level + 1,
        sorted(outs),
        covered(DB::file_runs(kb), o.runs()),
        forall|x: int| 0 <= x < kb.len() ==> (#[trigger] kb[x]).level != level && kb[x].level != level + 1 && sorted(kb[x].records@),
        one_file_per_level(kb),
        forall|i: int, j: int|
            at(o.runs(), i, j) && i >= 1 && o.files@[i - 1].level != level && o.files@[i - 1].level != level + 1
                ==> in_runs(DB::file_runs(kb), #[trigger] o.runs()[i][j]),
        covered(single(ins), o.runs()),
        forall|i: int, j: int|
            at(o.runs(), i, j) && i >= 1 && (o.files@[i - 1].level == level || o.files@[i - 1].level == level + 1)
                ==> in_runs(single(ins), #[trigger] o.runs()[i][j]),
        covered(single(outs), single(ins)),
        forall|p: int| 0 <= p < ins.len() ==> (in_runs(single(outs), #[trigger] ins[p]) <==> !shadowed(single(ins), ins[p], m)),
        forall|s: u64| o.live(s) ==> m <= s,
    ensures
        unique_versions(n.runs()),
        forall|i: int, j: int| at(n.runs(), i, j) ==> 1 <= (#[trigger] n.runs()[i][j]).seq <= n.last_seq,
        forall|k: Seq<u8>, s: u64| o.live(s) ==> #[trigger] value_at(n.runs(), k, s) == value_at(o.runs(), k, s),
        forall|i: int| 0 <= i < n.files@.len() ==> sorted(#[trigger] n.files@[i].records@),
        one_file_per_level(n.files@),
{
    let r1 = o.runs();
    let r2 = n.runs();
    let kr = DB::file_runs(kb);
    let nk = kr.len() as int;
    assert forall|x: int| 0 <= x < nk implies r2[x + 1] == #[trigger] kr[x] by {}
    assert(r2[nk + 1] == outs);
    assert forall|i: int, j: int| at(r1, i, j) && i >= 1 implies in_runs(kr, #[trigger] r1[i][j]) || in_runs(single(ins), r1[i][j]) by {
        if o.files@[i - 1].level != level && o.files@[i - 1].level != level + 1 {
        } else {
        }
    }
    assert forall|p: int| 0 <= p < single(ins)[0].len() implies in_runs(single(outs), #[trigger] single(ins)[0][p]) || shadowed(single(ins), single(ins)[0][p], m) by {
        assert(single(ins)[0][p] == ins[p]);
    }
    lemma_merge_runs(r1, r2, kr, single(ins), outs, m);
    assert forall|i: int| 0 <= i < n.files@.len() implies sorted(#[trigger] n.files@[i].records@) by {
        if i < nk {
            assert(n.files@[i] == kb[i]);
        }
    }
    assert forall|i: int, j: int| 0 <= i < j < n.files@.len() && (#[trigger] n.files@[i]).level == (#[trigger] n.files@[j]).level
        implies n.files@[i].level == 0 by {
        assert(n.files@[i] == kb[i]);
        if j < nk {
            assert(n.files@[j] == kb[j]);
        }
    }
    assert forall|k: Seq<u8>, s: u64| o.live(s) implies #[trigger] value_at(r2, k, s) == value_at(r1, k, s) by {
        crate::model::lemma_compaction_preserves(r1, r2, m, k, s);
    }
    crate::model::lemma_covered_unique(r1, r2);
    assert forall|i: int, j: int| at(r2, i, j) implies 1 <= (#[trigger] r2[i][j]).seq <= n.last_seq by {
        assert(in_runs(r1, r2[i][j]));
    }
}

/// What the caller of a write does next.
#[derive(Clone, Copy, Debug, PartialEq, Eq, Structural)]
pub enum WriteAction {
    /// The write is done.
    Done(u64),
    /// The write is done; pause briefly before the next, writes are delayed.
    PauseThenDone(u64),
    /// The write is done; flush the memtable, then ask again.
    FlushThenDone(u64),
    /// Writes are stopped: flush the memtable, then retry the write.
    FlushThenRetry,
    /// Writes are stopped: compact level 0, then retry the write.
    CompactLevel0ThenRetry,
    /// The write failed with this error.
    Fail(Error),
}

/// The decision after a write that returned `r`: errors other than `Busy`
/// are final; a stopped store is relieved by flushing a full memtable,
/// else by compacting level 0, else the `Busy` stands; a completed write is
/// followed by a flush of a full memtable, else by a pause when writes are
/// delayed.
pub open spec fn write_action(db: DB, r: Result<u64, Error>) -> WriteAction {
    match r {
        Err(Error::Busy) => if db.mem_bytes >= db.opts.write_buffer_size {
            WriteAction::FlushThenRetry
        } else if count_level(db.files@, 0) > 0 {
            WriteAction::CompactLevel0ThenRetry
        } else {
            WriteAction::Fail(Error::Busy)
        },
        Err(e) => WriteAction::Fail(e),
        Ok(seq) => if db.mem_bytes >= db.opts.write_buffer_size {
            WriteAction::FlushThenDone(seq)
        } else if db.stall == DBWriteStallCondition::Delayed {
            WriteAction::PauseThenDone(seq)
        } else {
            WriteAction::Done(seq)
        },
    }
}

/// What a write of `kind` on `key` with operand `value` does: it is
/// refused, leaving the store as it was, when the store is closing, when a
/// background error is raised, or when writes are stopped; otherwise it
/// takes the next sequence number and changes what reads at that number see.
pub open spec fn write_outcome(o: DB, n: DB, kind: EntryType, key: Seq<u8>, value: Seq<u8>, r: Result<u64, Error>) -> bool {
    if o.closing {
        r == Err::<u64, Error>(Error::ShutdownInProgress) && n == o
    } else if o.bg_error is Some {
        r == Err::<u64, Error>(Error::Background) && n == o
    } else if o.stall == DBWriteStallCondition::Stopped {
        r == Err::<u64, Error>(Error::Busy) && n == o
    } else {
        &&& r == Ok::<u64, Error>(n.last_seq)
        &&& n.last_seq == o.last_seq + 1
        &&& n.history@ == o.history@.push(n.history@.last())
        &&& n.history@.last().key@ == key
        &&& n.history@.last().kind == kind
        &&& n.history@.last().value@ == value
        &&& n.snapshots@ == o.snapshots@
        &&& n.files@ == o.files@
        &&& n.next_file_id == o.next_file_id
        &&& n.mem_bytes == sat_add(o.mem_bytes as int, charge(key, value))
        &&& n.opts == o.opts && n.bg_error == o.bg_error && n.closing == o.closing
        &&& stall_recorded(o, n)
        &&& forall|k: Seq<u8>, t: u64| t <= o.last_seq ==> #[trigger] n.value(k, t) == o.value(k, t)
        &&& forall|k: Seq<u8>| #[trigger] n.value(k, n.last_seq) == if key == k {
            apply(kind, value, o.value(k, o.last_seq))
        } else {
            o.value(k, o.last_seq)
        }
    }
}

impl DB {
    /// The runs of the store: the memtable first, then each file.
    pub open spec fn runs(&self) -> Runs {
        Seq::new(
            (self.files@.len() + 1) as nat,
            |i: int|
                if i == 0 {
                    self.mem@
                } else {
                    self.files@[i - 1].records@
                },
        )
    }

    /// The sequence number of the newest acknowledged write.
    pub open spec fn last_sequence(&self) -> u64 {
        self.last_seq
    }

    /// A read horizon that the store keeps exact: the newest write or a
    /// live snapshot.
    pub open spec fn live(&self, s: u64) -> bool {
        s == self.last_seq || self.snapshots@.contains(s)
    }

    /// The value that key `k` has for a read bound to horizon `s`.
    pub open spec fn value(&self, k: Seq<u8>, s: u64) -> Option<Seq<u8>> {
        value_at(self.runs(), k, s)
    }

    /// The write history as the reference semantics sees it.
    pub open spec fn log(&self) -> Seq<Record> {
        self.history@
    }

    pub open spec fn wf_data(&self) -> bool {
        &&& self.history@.len() == self.last_seq
        &&& forall|i: int| 0 <= i < self.history@.len() ==> #[trigger] self.history@[i].seq == i + 1
        &&& unique_versions(self.runs())
        &&& forall|i: int, j: int|
            at(self.runs(), i, j) ==> 1 <= (#[trigger] self.runs()[i][j]).seq <= self.last_seq
        &&& forall|i: int| 0 <= i < self.snapshots@.len() ==> #[trigger] self.snapshots@[i] <= self.last_seq
        &&& forall|k: Seq<u8>, s: u64|
            self.live(s) ==> #[trigger] value_at(self.runs(), k, s) == ref_value(
                self.history@,
                k,
                s as nat,
            )
        &&& forall|i: int| 0 <= i < self.files@.len() ==> #[trigger] self.files@[i].id < self.next_file_id
        &&& forall|a: int, b: int| 0 <= a < b < self.mem@.len() ==> (#[trigger] self.mem@[a]).seq < (#[trigger] self.mem@[b]).seq
        &&& self.wal@ == enc_log(self.history@)
        &&& forall|i: int| 0 <= i < self.files@.len() ==> sorted(#[trigger] self.files@[i].records@)
        &&& one_file_per_level(self.files@)
        &&& forall|i: int, j: int| 0 <= i < j < self.files@.len() ==> (#[trigger] self.files@[i]).id != (#[trigger] self.files@[j]).id
        &&& replay(self.manifest@) == files_set(self.files@)
    }

    /// The data invariant, and a stall condition that matches the memtable
    /// charge and the level-0 file count.
    pub open spec fn wf(&self) -> bool {
        &&& self.wf_data()
        &&& self.stall == stall_spec(self.mem_bytes, count_level(self.files@, 0) as int, self.opts)
    }

    /// An empty store with options `opts`.
    pub fn open(opts: ColumnFamilyOptions) -> (r: DB)
        ensures
            r.wf(),
            r.opts == opts,
            r.last_sequence() == 0,
            r.log().len() == 0,
            r.snapshots@.len() == 0,
            r.mem_bytes == 0,
            r.files@.len() == 0,
            r.next_file_id == 1,
            r.bg_error is None,
            !r.closing,
            r.stall_events@.len() == 0,
            forall|k: Seq<u8>, s: u64| r.value(k, s) is None,
    {
        let stall = stall_condition(0, 0, &opts);
        let r = DB {
            mem: Vec::new(),
            files: Vec::new(),
            last_seq: 0,
            next_file_id: 1,
            snapshots: Vec::new(),
            history: Ghost(Seq::empty()),
            opts,
            mem_bytes: 0,
            stall,
            bg_error: None,
            closing: false,
            stall_events: Vec::new(),
            wal: Vec::new(),
            manifest: Vec::new(),
        };
        assert(replay(r.manifest@) =~= files_set(r.files@));
        assert forall|k: Seq<u8>, s: u64| r.value(k, s) is None by {
            crate::model::lemma_gap(r.runs(), k, -1, s);
        }
        r
    }

    fn run_ref(&self, i: usize) -> (r: &Vec<Record>)
        requires
            i <= self.files@.len(),
        ensures
            r@ == self.runs()[i as int],
    {
        if i == 0 {
            &self.mem
        } else {
            &self.files[i - 1].records
        }
    }

    /// The position of the newest record of `key` with a sequence number
    /// up to `bound`, if any.
    fn find_newest(&self, key: &Vec<u8>, bound: u64) -> (r: Option<(usize, usize)>)
        ensures
            match r {
                Some((i, j)) => {
                    &&& at(self.runs(), i as int, j as int)
                    &&& self.runs()[i as int][j as int].key@ == key@
                    &&& self.runs()[i as int][j as int].seq <= bound
                    &&& gap(self.runs(), key@, self.runs()[i as int][j as int].seq as int, bound as int)
                },
                None => gap(self.runs(), key@, -1, bound as int),
            },
    {
        let ghost runs = self.runs();
        let mut best: Option<(usize, usize)> = None;
        let mut best_seq: u64 = 0;
        let mut i: usize = 0;
        loop
            invariant_except_break
                0 <= i <= self.files.len(),
                forall|a: int, b: int|
                    at(runs, a, b) && a < i && (#[trigger] runs[a][b]).key@ == key@ ==> runs[a][b].seq
                        > bound || (best is Some && runs[a][b].seq <= best_seq),
            invariant
                runs == self.runs(),
                match best {
                    Some((bi, bj)) => {
                        &&& at(runs, bi as int, bj as int)
                        &&& runs[bi as int][bj as int].key@ == key@
                        &&& runs[bi as int][bj as int].seq <= bound
                        &&& runs[bi as int][bj as int].seq == best_seq
                    },
                    None => true,
                },
            ensures
                forall|a: int, b: int|
                    at(runs, a, b) && (#[trigger] runs[a][b]).key@ == key@ ==> runs[a][b].seq
                        > bound || (best is Some && runs[a][b].seq <= best_seq),
            decreases self.files.len() - i,
        {
            let run = self.run_ref(i);
            let mut j: usize = 0;
            while j < run.len()
                invariant
                    runs == self.runs(),
                    0 <= i <= self.files.len(),
                    run@ == runs[i as int],
                    0 <= j <= run.len(),
                    match best {
                        Some((bi, bj)) => {
                            &&& at(runs, bi as int, bj as int)
                            &&& runs[bi as int][bj as int].key@ == key@
                            &&& runs[bi as int][bj as int].seq <= bound
                            &&& runs[bi as int][bj as int].seq == best_seq
                        },
                        None => true,
                    },
                    forall|a: int, b: int|
                        at(runs, a, b) && (a < i || (a == i && b < j)) && (#[trigger] runs[a][b]).key@
                            == key@ ==> runs[a][b].seq > bound || (best is Some && runs[a][b].seq
                            <= best_seq),
                decreases run.len() - j,
            {
                let rec = &run[j];
                if rec.seq <= bound && (best.is_none() || rec.seq > best_seq) && bytes_eq(&rec.key, key) {
                    best = Some((i, j));
                    best_seq = rec.seq;
                }
                j = j + 1;
            }
            if i == self.files.len() {
                break;
            }
            i = i + 1;
        }
        best
    }

    /// Journals and applies one operation: `kind` on `key` with operand
    /// `value`. It receives the next sequence number, which is returned.
    fn append(&mut self, kind: EntryType, key: &Vec<u8>, value: &Vec<u8>) -> (r: Result<u64, crate::error::Error>)
        requires
            old(self).wf_data(),
            old(self).last_sequence() < u64::MAX,
        ensures
            same_control(*old(self), *final(self)),
            final(self).files == old(self).files,
            final(self).next_file_id == old(self).next_file_id,
            final(self).wf_data(),
            r == Ok::<u64, crate::error::Error>(final(self).last_sequence()),
            final(self).last_sequence() == old(self).last_sequence() + 1,
            final(self).log().len() == old(self).log().len() + 1,
            final(self).log().subrange(0, old(self).log().len() as int) == old(self).log(),
            final(self).log().last().key@ == key@,
            final(self).log().last().kind == kind,
            final(self).log().last().value@ == value@,
            final(self).snapshots@ == old(self).snapshots@,
            forall|k: Seq<u8>, t: u64|
                t <= old(self).last_sequence() ==> #[trigger] final(self).value(k, t) == old(self).value(k, t),
            forall|k: Seq<u8>| #[trigger] final(self).value(k, final(self).last_sequence()) == if key@ == k {
                apply(kind, value@, old(self).value(k, old(self).last_sequence()))
            } else {
                old(self).value(k, old(self).last_sequence())
            },
    {
        let seq = self.last_seq + 1;
        let rec = Record { key: copy_bytes(key), seq, kind, value: copy_bytes(value) };
        let ghost r1 = self.runs();
        let ghost h1 = self.history@;
        let ghost x = rec;
        proof {
            lemma_push_mem(r1, x, self.last_seq);
        }
        proof {
            crate::wal::lemma_enc_push(h1, x);
        }
        encode_record(&mut self.wal, &rec);
        self.mem.push(rec);
        self.last_seq = seq;
        self.history = Ghost(self.history@.push(x));
        proof {
            assert(self.runs() =~= push_mem(r1, x));
            let h2 = self.history@;
            assert(h2.subrange(0, h1.len() as int) =~= h1);
            assert forall|k: Seq<u8>, s: u64| self.live(s) implies #[trigger] value_at(self.runs(), k, s) == ref_value(self.history@, k, s as nat) by {
                if s < seq {
                    assert(self.snapshots@.contains(s));
                    let i = choose|i: int| 0 <= i < self.snapshots@.len() && self.snapshots@[i] == s;
                    assert(value_at(r1, k, s) == ref_value(h1, k, s as nat));
                    lemma_ref_prefix(h1, x, k, s as nat);
                } else {
                    assert(s == seq);
                    assert(value_at(r1, k, (seq - 1) as u64) == ref_value(h1, k, (seq - 1) as nat));
                    lemma_ref_prefix(h1, x, k, (seq - 1) as nat);
                    assert(h2[seq - 1] == x);
                }
            }
        }
        Ok(seq)
    }

    /// Bytes charged to the table files (saturating).
    pub open spec fn table_bytes(&self) -> u64 {
        files_bytes(self.files@, None)
    }

    /// Bytes charged to the table files (saturating).
    pub fn approximate_table_bytes(&self) -> (r: u64)
        ensures
            r == self.table_bytes(),
    {
        sum_files_bytes(&self.files, None)
    }

    /// A description of the memtable: its first sequence number (0 when
    /// empty), and how many entries and deletions it holds.
    pub fn memtable_info(&self) -> (r: MemTableInfo)
        requires
            self.wf(),
        ensures
            r.first_seqno == if self.mem@.len() == 0 { 0 } else { self.mem@[0].seq },
            r.earliest_seqno == r.first_seqno,
            r.num_entries == crate::table_properties::props_of(self.mem@).num_entries,
            r.num_deletes == crate::table_properties::props_of(self.mem@).num_deletions,
    {
        let p = crate::table_properties::table_properties(&self.mem);
        let first = if self.mem.len() == 0 { 0 } else { self.mem[0].seq };
        MemTableInfo {
            cf_name: Vec::new(),
            first_seqno: first,
            earliest_seqno: first,
            num_entries: p.num_entries,
            num_deletes: p.num_deletions,
        }
    }

    /// Whether the memtable has reached `write_buffer_size` and should be
    /// flushed.
    pub fn should_flush(&self) -> (r: bool)
        ensures
            r == (self.mem_bytes >= self.opts.write_buffer_size),
    {
        self.mem_bytes as u128 >= self.opts.write_buffer_size as u128
    }

    /// The compaction that is due, if any: its input level and reason.
    pub fn pick_compaction(&self) -> (r: Option<(usize, DBCompactionReason)>)
        ensures
            r == pick_spec(self.files@, self.opts),
    {
        let o = &self.opts;
        if o.disable_auto_compactions {
            return None;
        }
        let l0 = self.level_file_count(0);
        if o.num_levels >= 2 && (l0 as u128 >= 0x8000_0000u128 || l0 as i64 >= o.level_zero_file_num_compaction_trigger as i64) {
            return Some((0, DBCompactionReason::LevelL0FilesNum));
        }
        let n = o.num_levels;
        if n < 2 {
            return None;
        }
        assert(!(o.num_levels >= 2 && count_level(self.files@, 0) >= o.level_zero_file_num_compaction_trigger));
        let last = (n - 1) as usize;
        let mut l: usize = 1;
        let mut target: u64 = o.max_bytes_for_level_base;
        while l < last
            invariant
                1 <= l,
                n == o.num_levels,
                n >= 2,
                last == n - 1,
                l <= last,
                o == &self.opts,
                !o.disable_auto_compactions,
                !(o.num_levels >= 2 && count_level(self.files@, 0) >= o.level_zero_file_num_compaction_trigger),
                target == level_target(*o, l as nat),
                oversized_from(self.files@, *o, 1) == oversized_from(self.files@, *o, l as nat),
            decreases last - l,
        {
            let bytes = sum_files_bytes(&self.files, Some(l));
            if bytes > target {
                assert(oversized_from(self.files@, *o, l as nat) == Some(l));
                return Some((l, DBCompactionReason::LevelMaxLevelSize));
            }
            proof {
                assert((target as u128) * (o.max_bytes_for_level_multiplier as u128) <= 0xffff_ffff_ffff_ffffu128 * 0xffff_ffff_ffff_ffffu128)
                    by (nonlinear_arith)
                    requires
                        target as u128 <= 0xffff_ffff_ffff_ffffu128,
                        o.max_bytes_for_level_multiplier as u128 <= 0xffff_ffff_ffff_ffffu128,
                ;
            }
            let t = target as u128 * o.max_bytes_for_level_multiplier as u128;
            target = if t > u64::MAX as u128 { u64::MAX } else { t as u64 };
            l = l + 1;
        }
        None
    }


    /// Freezes the memtable and writes its records to a new level-0 file.
    /// Every key keeps its value at every horizon.
    fn seal_memtable(&mut self) -> (r: Result<u64, crate::error::Error>)
        requires
            old(self).wf_data(),
        ensures
            same_control(*old(self), *final(self)),
            final(self).history == old(self).history,
            final(self).wf_data(),
            final(self).log() == old(self).log(),
            final(self).last_sequence() == old(self).last_sequence(),
            final(self).snapshots@ == old(self).snapshots@,
            forall|k: Seq<u8>, t: u64| #[trigger] final(self).value(k, t) == old(self).value(k, t),
            old(self).next_file_id == u64::MAX ==> r == Err::<u64, crate::error::Error>(crate::error::Error::InvalidArgument) && *final(self) == *old(self),
            old(self).next_file_id < u64::MAX ==> {
                &&& r == Ok::<u64, crate::error::Error>(old(self).next_file_id)
                &&& final(self).mem@.len() == 0
                &&& final(self).files@ == old(self).files@.push(final(self).files@.last())
                &&& final(self).files@.last().id == old(self).next_file_id
                &&& final(self).files@.last().level == 0
                &&& final(self).files@.last().records@.len() == old(self).mem@.len()
                &&& sorted(final(self).files@.last().records@)
                &&& covered(seq![final(self).files@.last().records@], seq![old(self).mem@])
                &&& covered(seq![old(self).mem@], seq![final(self).files@.last().records@])
            },
    {
        if self.next_file_id == u64::MAX {
            return Err(crate::error::Error::InvalidArgument);
        }
        let ghost r1 = self.runs();
        let id = self.next_file_id;
        let mut memtable: Vec<Record> = Vec::new();
        std::mem::swap(&mut memtable, &mut self.mem);
        let ghost memv = memtable@;
        let records = sort_records(memtable);
        let ghost sv = records@;
        let mut added: Vec<(u64, usize)> = Vec::new();
        added.push((id, 0));
        let ghost old_set = files_set(self.files@);
        self.manifest.push(VersionEdit { removed: Vec::new(), added });
        self.files.push(SstFile { id, level: 0, records });
        self.next_file_id = id + 1;
        proof {
            let e = self.manifest@.last();
            assert(self.manifest@.drop_last() == old(self).manifest@);
            assert forall|p: (u64, usize)| #[trigger] files_set(self.files@).contains(p) == apply_edit(old_set, e).contains(p) by {
                if files_set(self.files@).contains(p) {
                    let i = choose|i: int| 0 <= i < self.files@.len() && (#[trigger] self.files@[i]).id == p.0 && self.files@[i].level == p.1;
                    if i < self.files@.len() - 1 {
                        assert(self.files@[i] == old(self).files@[i]);
                    } else {
                        assert(e.added@[0] == p);
                    }
                }
                if apply_edit(old_set, e).contains(p) {
                    if old_set.contains(p) {
                        let i = choose|i: int| 0 <= i < old(self).files@.len() && (#[trigger] old(self).files@[i]).id == p.0 && old(self).files@[i].level == p.1;
                        assert(self.files@[i] == old(self).files@[i]);
                    } else {
                        let x = choose|x: int| 0 <= x < e.added@.len() && e.added@[x] == p;
                        assert(self.files@[self.files@.len() - 1].id == p.0);
                    }
                }
            }
            assert(files_set(self.files@) =~= apply_edit(old_set, e));
        }
        proof {
            let r2 = self.runs();
            let n = r1.len();
            assert(r2[n as int] == sv);
            assert(r1[0] == memv);
            assert forall|i: int, j: int| at(r2, i, j) implies in_runs(r1, #[trigger] r2[i][j]) by {
                if i == n {
                    assert(at(seq![sv], 0, j) && same(seq![sv][0][j], r2[i][j]));
                    crate::model::lemma_in_covered(seq![sv], seq![memv], r2[i][j]);
                    crate::model::lemma_in_single(memv, r1, 0, r2[i][j]);
                } else {
                    assert(same(r1[i][j], r2[i][j]));
                }
            }
            assert forall|i: int, j: int| at(r1, i, j) implies in_runs(r2, #[trigger] r1[i][j]) by {
                if i == 0 {
                    assert(at(seq![memv], 0, j) && same(seq![memv][0][j], r1[i][j]));
                    crate::model::lemma_in_covered(seq![memv], seq![sv], r1[i][j]);
                    crate::model::lemma_in_single(sv, r2, n as int, r1[i][j]);
                } else {
                    assert(same(r2[i][j], r1[i][j]));
                }
            }
            assert forall|i: int| 0 <= i < self.files@.len() implies sorted(#[trigger] self.files@[i].records@) by {
                if i < n - 1 {
                    assert(self.files@[i] == old(self).files@[i]);
                }
            }
            crate::model::lemma_rearranged(r1, r2);
            assert forall|i: int, j: int| at(r2, i, j) implies 1 <= (#[trigger] r2[i][j]).seq <= self.last_seq by {
                assert(in_runs(r1, r2[i][j]));
            }
            assert forall|k: Seq<u8>, s: u64| self.live(s) implies #[trigger] value_at(self.runs(), k, s) == ref_value(self.history@, k, s as nat) by {
                assert(value_at(r1, k, s) == ref_value(self.history@, k, s as nat));
            }
        }
        Ok(id)
    }

    /// The runs of a list of files.
    pub open spec fn file_runs(files: Seq<SstFile>) -> Runs {
        Seq::new(files.len(), |i: int| files[i].records@)
    }

    /// The oldest horizon a read can still be bound to: the oldest live
    /// snapshot, or the newest write when there is none.
    pub fn oldest_live(&self) -> (m: u64)
        requires
            self.wf_data(),
        ensures
            m <= self.last_seq,
            forall|s: u64| self.live(s) ==> m <= s,
            self.live(m),
    {
        let mut m = self.last_seq;
        let mut i: usize = 0;
        while i < self.snapshots.len()
            invariant
                self.wf_data(),
                0 <= i <= self.snapshots.len(),
                m <= self.last_seq,
                self.live(m),
                forall|x: int| 0 <= x < i ==> m <= #[trigger] self.snapshots@[x],
            decreases self.snapshots.len() - i,
        {
            if self.snapshots[i] < m {
                m = self.snapshots[i];
                proof {
                    assert(self.snapshots@.contains(m));
                }
            }
            i = i + 1;
        }
        proof {
            assert forall|s: u64| self.live(s) implies m <= s by {
                if s != self.last_seq {
                    let x = choose|x: int| 0 <= x < self.snapshots@.len() && self.snapshots@[x] == s;
                }
            }
        }
        m
    }

    /// Copies of every record of the files at `level` and `level + 1`.
    fn gather_inputs(&self, level: usize) -> (inputs: Vec<Record>)
        requires
            level < usize::MAX,
        ensures
            covered(single(inputs@), self.runs()),
            forall|i: int, j: int|
                at(self.runs(), i, j) && i >= 1 && (self.files@[i - 1].level == level || self.files@[i - 1].level
                    == level + 1) ==> in_runs(single(inputs@), #[trigger] self.runs()[i][j]),
    {
        let ghost runs = self.runs();
        let mut inputs: Vec<Record> = Vec::new();
        let mut f: usize = 0;
        while f < self.files.len()
            invariant
                runs == self.runs(),
                level < usize::MAX,
                0 <= f <= self.files.len(),
                covered(single(inputs@), runs),
                forall|i: int, j: int|
                    at(runs, i, j) && 1 <= i <= f && (self.files@[i - 1].level == level || self.files@[i - 1].level
                        == level + 1) ==> in_runs(single(inputs@), #[trigger] runs[i][j]),
            decreases self.files.len() - f,
        {
            let file = &self.files[f];
            if file.level == level || file.level == level + 1 {
                let mut j: usize = 0;
                while j < file.records.len()
                    invariant
                        runs == self.runs(),
                        0 <= f < self.files.len(),
                        file == self.files@[f as int],
                        file.level == level || file.level == level + 1,
                        0 <= j <= file.records.len(),
                        covered(single(inputs@), runs),
                        forall|i: int, jj: int|
                            at(runs, i, jj) && 1 <= i <= f && (self.files@[i - 1].level == level || self.files@[i - 1].level
                                == level + 1) ==> in_runs(single(inputs@), #[trigger] runs[i][jj]),
                        forall|jj: int| 0 <= jj < j ==> in_runs(single(inputs@), #[trigger] runs[f + 1][jj]),
                    decreases file.records.len() - j,
                {
                    let ghost before = single(inputs@);
                    inputs.push(file.records[j].duplicate());
                    proof {
                        let after = single(inputs@);
                        let n = before[0].len() as int;
                        assert(runs[f + 1][j as int] == file.records@[j as int]);
                        assert forall|i: int, jj: int| at(after, i, jj) implies in_runs(runs, #[trigger] after[i][jj]) by {
                            if jj < n {
                                assert(after[i][jj] == before[i][jj]);
                                assert(at(before, i, jj));
                            } else {
                                assert(at(runs, f + 1, j as int) && same(runs[f + 1][j as int], after[i][jj]));
                            }
                        }
                        assert forall|r: Record| in_runs(before, r) implies in_runs(after, r) by {
                            let (i, jj) = choose|i: int, jj: int| at(before, i, jj) && same(#[trigger] before[i][jj], r);
                            assert(after[i][jj] == before[i][jj]);
                        }
                        assert(at(after, 0, n) && same(after[0][n], runs[f + 1][j as int]));
                    }
                    j = j + 1;
                }
            }
            f = f + 1;
        }
        inputs
    }

    /// The positions of the files outside `level` and `level + 1`, in order.
    fn kept_positions(&self, level: usize) -> (idx: Vec<usize>)
        requires
            level < usize::MAX,
        ensures
            forall|x: int| 0 <= x < idx@.len() ==> (#[trigger] idx@[x]) < self.files@.len() && self.files@[idx@[x] as int].level
                != level && self.files@[idx@[x] as int].level != level + 1,
            forall|x: int, y: int| 0 <= x < y < idx@.len() ==> (#[trigger] idx@[x]) < (#[trigger] idx@[y]),
            forall|i: int| 0 <= i < self.files@.len() && (#[trigger] self.files@[i]).level != level && self.files@[i].level
                != level + 1 ==> exists|x: int| 0 <= x < idx@.len() && idx@[x] == i,
    {
        let mut idx: Vec<usize> = Vec::new();
        let mut f: usize = 0;
        while f < self.files.len()
            invariant
                level < usize::MAX,
                0 <= f <= self.files.len(),
                forall|x: int| 0 <= x < idx@.len() ==> (#[trigger] idx@[x]) < f && self.files@[idx@[x] as int].level
                    != level && self.files@[idx@[x] as int].level != level + 1,
                forall|x: int, y: int| 0 <= x < y < idx@.len() ==> (#[trigger] idx@[x]) < (#[trigger] idx@[y]),
                forall|i: int| 0 <= i < f && (#[trigger] self.files@[i]).level != level && self.files@[i].level
                    != level + 1 ==> exists|x: int| 0 <= x < idx@.len() && idx@[x] == i,
            decreases self.files.len() - f,
        {
            if self.files[f].level != level && self.files[f].level != level + 1 {
                let ghost before = idx@;
                idx.push(f);
                proof {
                    assert forall|i: int| 0 <= i < f + 1 && (#[trigger] self.files@[i]).level != level && self.files@[i].level
                        != level + 1 implies exists|x: int| 0 <= x < idx@.len() && idx@[x] == i by {
                        if i < f {
                            let x = choose|x: int| 0 <= x < before.len() && before[x] == i;
                            assert(idx@[x] == before[x]);
                        } else {
                            assert(idx@[before.len() as int] == i);
                        }
                    }
                }
            }
            f = f + 1;
        }
        idx
    }

    /// Copies of the files at positions `idx`.
    fn copy_at(&self, idx: &Vec<usize>) -> (kept: Vec<SstFile>)
        requires
            forall|x: int| 0 <= x < idx@.len() ==> (#[trigger] idx@[x]) < self.files@.len(),
        ensures
            kept@.len() == idx@.len(),
            forall|x: int| 0 <= x < idx@.len() ==> {
                &&& (#[trigger] kept@[x]).id == self.files@[idx@[x] as int].id
                &&& kept@[x].level == self.files@[idx@[x] as int].level
                &&& kept@[x].records@.len() == self.files@[idx@[x] as int].records@.len()
                &&& forall|j: int| 0 <= j < kept@[x].records@.len() ==> same(#[trigger] kept@[x].records@[j], self.files@[idx@[x] as int].records@[j])
            },
    {
        let mut kept: Vec<SstFile> = Vec::new();
        let mut x: usize = 0;
        while x < idx.len()
            invariant
                forall|y: int| 0 <= y < idx@.len() ==> (#[trigger] idx@[y]) < self.files@.len(),
                0 <= x <= idx@.len(),
                kept@.len() == x,
                forall|y: int| 0 <= y < x ==> {
                    &&& (#[trigger] kept@[y]).id == self.files@[idx@[y] as int].id
                    &&& kept@[y].level == self.files@[idx@[y] as int].level
                    &&& kept@[y].records@.len() == self.files@[idx@[y] as int].records@.len()
                    &&& forall|j: int| 0 <= j < kept@[y].records@.len() ==> same(#[trigger] kept@[y].records@[j], self.files@[idx@[y] as int].records@[j])
                },
            decreases idx.len() - x,
        {
            let file = &self.files[idx[x]];
            kept.push(SstFile { id: file.id, level: file.level, records: dup_records(&file.records) });
            x = x + 1;
        }
        kept
    }

    /// The numbers of the files at `level` and `level + 1`, how many they
    /// are, and how many of them are at `level + 1`.
    fn input_files(&self, level: usize) -> (r: (Vec<u64>, usize, usize))
        requires
            level < usize::MAX,
        ensures
            forall|id: u64| #[trigger] r.0@.contains(id) <==> exists|i: int| 0 <= i < self.files@.len() && (#[trigger] self.files@[i]).id == id
                && (self.files@[i].level == level || self.files@[i].level == level + 1),
    {
        let mut input_files: usize = 0;
        let mut at_output: usize = 0;
        let mut removed: Vec<u64> = Vec::new();
        let mut f: usize = 0;
        while f < self.files.len()
            invariant
                level < usize::MAX,
                input_files <= f,
                at_output <= f,
                f <= self.files.len(),
                forall|id: u64| #[trigger] removed@.contains(id) <==> exists|i: int| 0 <= i < f && (#[trigger] self.files@[i]).id == id
                    && (self.files@[i].level == level || self.files@[i].level == level + 1),
            decreases self.files.len() - f,
        {
            let ghost before = removed@;
            if self.files[f].level == level || self.files[f].level == level + 1 {
                input_files = input_files + 1;
                if self.files[f].level == level + 1 {
                    at_output = at_output + 1;
                }
                removed.push(self.files[f].id);
                proof {
                    assert(removed@ == before.push(self.files@[f as int].id));
                    assert forall|id: u64| #[trigger] removed@.contains(id) <==> exists|i: int| 0 <= i < f + 1 && (#[trigger] self.files@[i]).id == id
                        && (self.files@[i].level == level || self.files@[i].level == level + 1) by {
                        if removed@.contains(id) {
                            let x = choose|x: int| 0 <= x < removed@.len() && removed@[x] == id;
                            if x < before.len() {
                                assert(before[x] == id);
                                assert(before.contains(id));
                            } else {
                                assert(self.files@[f as int].id == id);
                            }
                        }
                        if exists|i: int| 0 <= i < f + 1 && (#[trigger] self.files@[i]).id == id
                            && (self.files@[i].level == level || self.files@[i].level == level + 1) {
                            let i = choose|i: int| 0 <= i < f + 1 && (#[trigger] self.files@[i]).id == id
                                && (self.files@[i].level == level || self.files@[i].level == level + 1);
                            if i < f {
                                assert(before.contains(id));
                                let x = choose|x: int| 0 <= x < before.len() && before[x] == id;
                                assert(removed@[x] == id);
                            } else {
                                assert(removed@[before.len() as int] == id);
                            }
                        }
                    }
                }
            } else {
                proof {
                    assert forall|id: u64| #[trigger] removed@.contains(id) <==> exists|i: int| 0 <= i < f + 1 && (#[trigger] self.files@[i]).id == id
                        && (self.files@[i].level == level || self.files@[i].level == level + 1) by {
                        if exists|i: int| 0 <= i < f + 1 && (#[trigger] self.files@[i]).id == id
                            && (self.files@[i].level == level || self.files@[i].level == level + 1) {
                            let i = choose|i: int| 0 <= i < f + 1 && (#[trigger] self.files@[i]).id == id
                                && (self.files@[i].level == level || self.files@[i].level == level + 1);
                            assert(i < f);
                        }
                    }
                }
            }
            f = f + 1;
        }
        (removed, input_files, at_output)
    }

    /// Copies of the files outside `level` and `level + 1`.
    fn keep_files(&self, level: usize) -> (kept: Vec<SstFile>)
        requires
            self.wf_data(),
            level < usize::MAX,
        ensures
            covered(Self::file_runs(kept@), self.runs()),
            forall|x: int| 0 <= x < kept@.len() ==> (#[trigger] kept@[x]).id < self.next_file_id && kept@[x].level
                != level && kept@[x].level != level + 1 && sorted(kept@[x].records@),
            one_file_per_level(kept@),
            forall|p: (u64, usize)| #[trigger] files_set(kept@).contains(p) <==> files_set(self.files@).contains(p) && p.1 != level && p.1
                != level + 1,
            forall|x: int, y: int| 0 <= x < y < kept@.len() ==> (#[trigger] kept@[x]).id != (#[trigger] kept@[y]).id,
            forall|i: int, j: int|
                at(self.runs(), i, j) && i >= 1 && self.files@[i - 1].level != level && self.files@[i - 1].level
                    != level + 1 ==> in_runs(Self::file_runs(kept@), #[trigger] self.runs()[i][j]),
    {
        let ghost runs = self.runs();
        let idx = self.kept_positions(level);
        let kept = self.copy_at(&idx);
        proof {
            let kr = Self::file_runs(kept@);
            assert forall|i: int, j: int| at(kr, i, j) implies in_runs(runs, #[trigger] kr[i][j]) by {
                let f = idx@[i] as int;
                assert(same(runs[f + 1][j], kr[i][j]));
                assert(at(runs, f + 1, j));
            }
            assert forall|x: int| 0 <= x < kept@.len() implies (#[trigger] kept@[x]).id < self.next_file_id && kept@[x].level
                != level && kept@[x].level != level + 1 && sorted(kept@[x].records@) by {
                let f = idx@[x] as int;
                lemma_sorted_same(self.files@[f].records@, kept@[x].records@);
            }
            assert forall|x: int, y: int| 0 <= x < y < kept@.len() && (#[trigger] kept@[x]).level == (#[trigger] kept@[y]).level
                implies kept@[x].level == 0 by {
                assert(idx@[x] < idx@[y]);
            }
            assert forall|p: (u64, usize)| #[trigger] files_set(kept@).contains(p) <==> files_set(self.files@).contains(p) && p.1 != level && p.1
                != level + 1 by {
                if files_set(kept@).contains(p) {
                    let x = choose|x: int| 0 <= x < kept@.len() && (#[trigger] kept@[x]).id == p.0 && kept@[x].level == p.1;
                    let f = idx@[x] as int;
                    assert(self.files@[f].id == p.0 && self.files@[f].level == p.1);
                }
                if files_set(self.files@).contains(p) && p.1 != level && p.1 != level + 1 {
                    let i = choose|i: int| 0 <= i < self.files@.len() && (#[trigger] self.files@[i]).id == p.0 && self.files@[i].level == p.1;
                    let x = choose|x: int| 0 <= x < idx@.len() && idx@[x] == i;
                    assert(kept@[x].id == p.0 && kept@[x].level == p.1);
                }
            }
            assert forall|x: int, y: int| 0 <= x < y < kept@.len() implies (#[trigger] kept@[x]).id != (#[trigger] kept@[y]).id by {
                assert(idx@[x] < idx@[y]);
            }
            assert forall|i: int, j: int|
                at(runs, i, j) && i >= 1 && self.files@[i - 1].level != level && self.files@[i - 1].level
                    != level + 1 implies in_runs(kr, #[trigger] runs[i][j]) by {
                let x = choose|x: int| 0 <= x < idx@.len() && idx@[x] == i - 1;
                assert(same(kr[x][j], runs[i][j]));
                assert(at(kr, x, j));
            }
        }
        kept
    }

    /// Merges every file of `level` and `level + 1` into one new file at
    /// `level + 1`, dropping each record that a newer Put or Delete of its
    /// key hides from every live horizon. Reads at live horizons are
    /// unaffected.
    #[verifier::spinoff_prover]
    #[verifier::rlimit(100)]
    fn merge_level(&mut self, level: usize, reason: DBCompactionReason) -> (r: Result<CompactionJobInfo, crate::error::Error>)
        requires
            old(self).wf_data(),
        ensures
            same_control(*old(self), *final(self)),
            final(self).history == old(self).history,
            final(self).wf_data(),
            final(self).log() == old(self).log(),
            final(self).last_sequence() == old(self).last_sequence(),
            final(self).snapshots@ == old(self).snapshots@,
            forall|k: Seq<u8>, s: u64| old(self).live(s) ==> #[trigger] final(self).value(k, s) == old(self).value(k, s),
            (level == usize::MAX || old(self).next_file_id == u64::MAX) ==> r == Err::<CompactionJobInfo, crate::error::Error>(crate::error::Error::InvalidArgument) && *final(self) == *old(self),
            (level < usize::MAX && old(self).next_file_id < u64::MAX) ==> {
                &&& r is Ok
                &&& r->Ok_0.base_input_level == level
                &&& r->Ok_0.output_level == level + 1
                &&& r->Ok_0.output_file_count == 1
                &&& r->Ok_0.compaction_reason == reason
                &&& final(self).mem@ == old(self).mem@
                &&& final(self).files@.last().level == level + 1
                &&& forall|x: int| 0 <= x < final(self).files@.len() - 1 ==> (#[trigger] final(self).files@[x]).level != level
                    && final(self).files@[x].level != level + 1
            },
    {
        if level == usize::MAX || self.next_file_id == u64::MAX {
            return Err(crate::error::Error::InvalidArgument);
        }
        let ghost r1 = self.runs();
        let m = self.oldest_live();
        let inputs = self.gather_inputs(level);
        let out = compact_records(&inputs, m);
        let mut kept = self.keep_files(level);
        let (removed, input_files, at_output) = self.input_files(level);
        let info = job_info(&inputs, &out, input_files, at_output, level, reason);
        let ghost kr = Self::file_runs(kept@);
        let ghost kept_before = kept@;
        let ghost outs = out@;
        let id = self.next_file_id;
        let mut added: Vec<(u64, usize)> = Vec::new();
        added.push((id, level + 1));
        let ghost old_set = files_set(self.files@);
        let ghost kept_set = files_set(kept@);
        self.manifest.push(VersionEdit { removed, added });
        kept.push(SstFile { id, level: level + 1, records: out });
        self.files = kept;
        self.next_file_id = id + 1;
        proof {
            assert(self.manifest@.drop_last() == old(self).manifest@);
            lemma_merge_manifest(old(self).files@, kept_before, self.files@, self.manifest@.last(), level, id);
        }
        proof {
            lemma_merge_data(*old(self), *self, kept_before, inputs@, outs, m, level);
            assert forall|k: Seq<u8>, s: u64| self.live(s) implies #[trigger] value_at(self.runs(), k, s) == ref_value(self.history@, k, s as nat) by {
                assert(old(self).live(s));
                assert(value_at(r1, k, s) == ref_value(self.history@, k, s as nat));
            }
        }
        Ok(info)
    }

    /// Number of files at `level`.
    pub fn level_file_count(&self, level: usize) -> (r: usize)
        ensures
            r == count_level(self.files@, level),
    {
        let mut n: usize = 0;
        let mut i: usize = 0;
        while i < self.files.len()
            invariant
                0 <= i <= self.files.len(),
                n == count_level(self.files@.take(i as int), level),
                n <= i,
            decreases self.files.len() - i,
        {
            assert(self.files@.take(i + 1).drop_last() =~= self.files@.take(i as int));
            if self.files[i].level == level {
                n = n + 1;
            }
            i = i + 1;
        }
        assert(self.files@.take(i as int) =~= self.files@);
        n
    }

    /// Recomputes the write-stall condition, recording a notification when
    /// it changes.
    fn refresh_stall(&mut self)
        ensures
            final(self).stall == stall_spec(old(self).mem_bytes, count_level(old(self).files@, 0) as int, old(self).opts),
            old(self).stall != final(self).stall ==> {
                &&& final(self).stall_events@.len() == old(self).stall_events@.len() + 1
                &&& final(self).stall_events@.subrange(0, old(self).stall_events@.len() as int) == old(self).stall_events@
                &&& final(self).stall_events@.last().prev == old(self).stall
                &&& final(self).stall_events@.last().cur == final(self).stall
            },
            old(self).stall == final(self).stall ==> final(self).stall_events@ == old(self).stall_events@,
            *final(self) == (DB { stall: final(self).stall, stall_events: final(self).stall_events, ..*old(self) }),
    {
        let l0 = self.level_file_count(0);
        let cur = stall_condition(self.mem_bytes, l0, &self.opts);
        if cur != self.stall {
            let prev = self.stall;
            let ghost before = self.stall_events@;
            self.stall_events.push(WriteStallInfo { cf_name: Vec::new(), prev, cur });
            self.stall = cur;
            assert(self.stall_events@.subrange(0, before.len() as int) =~= before);
        }
    }

    /// Applies `kind` to `key` with operand `value`, unless the store is
    /// closing, a background error is raised, or writes are stopped.
    /// Returns the write's sequence number.
    pub fn write(&mut self, kind: EntryType, key: &Vec<u8>, value: &Vec<u8>) -> (r: Result<u64, Error>)
        requires
            old(self).wf(),
            old(self).last_sequence() < u64::MAX,
        ensures
            final(self).wf(),
            write_outcome(*old(self), *final(self), kind, key@, value@, r),
    {
        if self.closing {
            return Err(Error::ShutdownInProgress);
        }
        if self.bg_error.is_some() {
            return Err(Error::Background);
        }
        if self.stall == DBWriteStallCondition::Stopped {
            return Err(Error::Busy);
        }
        let ghost o = *self;
        let r = self.append(kind, key, value);
        let ghost a = *self;
        proof {
            assert(self.history@ =~= o.history@.push(self.history@.last()));
        }
        let c = key.len() as u128 + value.len() as u128 + 8;
        let total = self.mem_bytes as u128 + c;
        self.mem_bytes = if total > u64::MAX as u128 {
            u64::MAX
        } else {
            total as u64
        };
        self.refresh_stall();
        proof {
            assert(self.runs() =~= a.runs());
            assert(self.history@ == a.history@);
            assert(self.mem_bytes == sat_add(o.mem_bytes as int, charge(key@, value@)));
            assert(r == Ok::<u64, Error>(self.last_seq));
            assert forall|k: Seq<u8>, t: u64| t <= o.last_seq implies #[trigger] self.value(k, t) == o.value(k, t) by {
                assert(a.value(k, t) == o.value(k, t));
            }
            assert forall|k: Seq<u8>| #[trigger] self.value(k, self.last_seq) == a.value(k, a.last_seq) by {}
        }
        r
    }

    /// Sets `key` to `value`.
    pub fn put(&mut self, key: &Vec<u8>, value: &Vec<u8>) -> (r: Result<u64, Error>)
        requires
            old(self).wf(),
            old(self).last_sequence() < u64::MAX,
        ensures
            final(self).wf(),
            write_outcome(*old(self), *final(self), EntryType::EntryPut, key@, value@, r),
    {
        self.write(EntryType::EntryPut, key, value)
    }

    /// Removes `key`.
    pub fn delete(&mut self, key: &Vec<u8>) -> (r: Result<u64, Error>)
        requires
            old(self).wf(),
            old(self).last_sequence() < u64::MAX,
        ensures
            final(self).wf(),
            write_outcome(*old(self), *final(self), EntryType::EntryDelete, key@, Seq::empty(), r),
    {
        let empty: Vec<u8> = Vec::new();
        self.write(EntryType::EntryDelete, key, &empty)
    }

    /// Removes `key`, for keys written at most once since their last removal.
    pub fn single_delete(&mut self, key: &Vec<u8>) -> (r: Result<u64, Error>)
        requires
            old(self).wf(),
            old(self).last_sequence() < u64::MAX,
        ensures
            final(self).wf(),
            write_outcome(*old(self), *final(self), EntryType::EntrySingleDelete, key@, Seq::empty(), r),
    {
        let empty: Vec<u8> = Vec::new();
        self.write(EntryType::EntrySingleDelete, key, &empty)
    }

    /// Appends `operand` to the value of `key` (an absent value counts as
    /// empty).
    pub fn merge(&mut self, key: &Vec<u8>, operand: &Vec<u8>) -> (r: Result<u64, Error>)
        requires
            old(self).wf(),
            old(self).last_sequence() < u64::MAX,
        ensures
            final(self).wf(),
            write_outcome(*old(self), *final(self), EntryType::EntryMerge, key@, operand@, r),
    {
        self.write(EntryType::EntryMerge, key, operand)
    }

    /// Freezes the memtable and writes it to a new level-0 file. Every key
    /// keeps its value at every horizon; the memtable charge drops to zero
    /// and the stall condition is recomputed.
    pub fn flush(&mut self) -> (r: Result<FlushJobInfo, Error>)
        requires
            old(self).wf(),
        ensures
            final(self).wf(),
            final(self).log() == old(self).log(),
            final(self).last_sequence() == old(self).last_sequence(),
            final(self).snapshots@ == old(self).snapshots@,
            forall|k: Seq<u8>, t: u64| #[trigger] final(self).value(k, t) == old(self).value(k, t),
            old(self).mem@.len() == 0 ==> *final(self) == *old(self) && r is Ok && r->Ok_0.file_number == 0
                && r->Ok_0.triggered_writes_slowdown == crate::write_controller::l0_reached(
                    count_level(old(self).files@, 0) as int, old(self).opts.level_zero_slowdown_writes_trigger)
                && r->Ok_0.triggered_writes_stop == crate::write_controller::l0_reached(
                    count_level(old(self).files@, 0) as int, old(self).opts.level_zero_stop_writes_trigger),
            old(self).mem@.len() > 0 && old(self).next_file_id == u64::MAX ==> r == Err::<FlushJobInfo, Error>(Error::InvalidArgument)
                && *final(self) == *old(self),
            old(self).mem@.len() > 0 && old(self).next_file_id < u64::MAX ==> {
                &&& r is Ok
                &&& stall_recorded(*old(self), *final(self))
                &&& final(self).mem@.len() == 0
                &&& final(self).mem_bytes == 0
                &&& final(self).files@ == old(self).files@.push(final(self).files@.last())
                &&& final(self).files@.last().id == old(self).next_file_id
                &&& final(self).files@.last().level == 0
                &&& final(self).files@.last().records@.len() == old(self).mem@.len()
                &&& sorted(final(self).files@.last().records@)
                &&& covered(seq![final(self).files@.last().records@], seq![old(self).mem@])
                &&& covered(seq![old(self).mem@], seq![final(self).files@.last().records@])
                &&& r->Ok_0.file_number == old(self).next_file_id
                &&& r->Ok_0.smallest_seqno == old(self).mem@[0].seq
                &&& r->Ok_0.largest_seqno == old(self).mem@.last().seq
                &&& r->Ok_0.triggered_writes_slowdown == crate::write_controller::l0_reached(
                    count_level(final(self).files@, 0) as int, final(self).opts.level_zero_slowdown_writes_trigger)
                &&& r->Ok_0.triggered_writes_stop == crate::write_controller::l0_reached(
                    count_level(final(self).files@, 0) as int, final(self).opts.level_zero_stop_writes_trigger)
                &&& final(self).opts == old(self).opts
                &&& final(self).bg_error == old(self).bg_error
                &&& final(self).closing == old(self).closing
            },
    {
        if self.mem.len() == 0 {
            let l0 = self.level_file_count(0);
            return Ok(FlushJobInfo {
                cf_name: Vec::new(),
                file_number: 0,
                smallest_seqno: 0,
                largest_seqno: 0,
                triggered_writes_slowdown: crate::write_controller::level0_reached(l0, self.opts.level_zero_slowdown_writes_trigger),
                triggered_writes_stop: crate::write_controller::level0_reached(l0, self.opts.level_zero_stop_writes_trigger),
            });
        }
        let smallest = if self.mem.len() == 0 { 0 } else { self.mem[0].seq };
        let largest = if self.mem.len() == 0 { 0 } else { self.mem[self.mem.len() - 1].seq };
        let ghost o = *self;
        match self.seal_memtable() {
            Err(e) => Err(e),
            Ok(id) => {
                let ghost a = *self;
                self.mem_bytes = 0;
                self.refresh_stall();
                let l0 = self.level_file_count(0);
                proof {
                    assert(self.runs() =~= a.runs());
                    assert forall|k: Seq<u8>, t: u64| #[trigger] self.value(k, t) == o.value(k, t) by {
                        assert(a.value(k, t) == o.value(k, t));
                    }
                }
                Ok(FlushJobInfo {
                    cf_name: Vec::new(),
                    file_number: id,
                    smallest_seqno: smallest,
                    largest_seqno: largest,
                    triggered_writes_slowdown: crate::write_controller::level0_reached(l0, self.opts.level_zero_slowdown_writes_trigger),
                    triggered_writes_stop: crate::write_controller::level0_reached(l0, self.opts.level_zero_stop_writes_trigger),
                })
            },
        }
    }

    /// Merges every file of `level` and `level + 1` into one file at
    /// `level + 1`, dropping each record that a newer Put or Delete of its
    /// key hides from every live horizon. Reads at live horizons see the
    /// same values; the stall condition is recomputed.
    pub fn compact_level(&mut self, level: usize, reason: DBCompactionReason) -> (r: Result<CompactionJobInfo, Error>)
        requires
            old(self).wf(),
        ensures
            final(self).wf(),
            final(self).log() == old(self).log(),
            final(self).last_sequence() == old(self).last_sequence(),
            final(self).snapshots@ == old(self).snapshots@,
            forall|k: Seq<u8>, s: u64| old(self).live(s) ==> #[trigger] final(self).value(k, s) == old(self).value(k, s),
            (level == usize::MAX || old(self).next_file_id == u64::MAX) ==> r == Err::<CompactionJobInfo, Error>(
                Error::InvalidArgument) && *final(self) == *old(self),
            (level < usize::MAX && old(self).next_file_id < u64::MAX) ==> {
                &&& r is Ok
                &&& stall_recorded(*old(self), *final(self))
                &&& r->Ok_0.base_input_level == level
                &&& r->Ok_0.output_level == level + 1
                &&& r->Ok_0.output_file_count == 1
                &&& r->Ok_0.compaction_reason == reason
                &&& final(self).mem@ == old(self).mem@
                &&& final(self).mem_bytes == old(self).mem_bytes
                &&& final(self).files@.last().level == level + 1
                &&& forall|x: int| 0 <= x < final(self).files@.len() - 1 ==> (#[trigger] final(self).files@[x]).level != level
                    && final(self).files@[x].level != level + 1
                &&& final(self).opts == old(self).opts
                &&& final(self).bg_error == old(self).bg_error
                &&& final(self).closing == old(self).closing
            },
    {
        let ghost o = *self;
        match self.merge_level(level, reason) {
            Err(e) => Err(e),
            Ok(info) => {
                let ghost a = *self;
                self.refresh_stall();
                proof {
                    assert(self.runs() =~= a.runs());
                    assert forall|k: Seq<u8>, t: u64| o.live(t) implies #[trigger] self.value(k, t) == o.value(k, t) by {
                        assert(a.value(k, t) == o.value(k, t));
                    }
                }
                Ok(info)
            },
        }
    }

    /// Takes a snapshot of the newest write; reads bound to it keep seeing
    /// exactly the writes up to it until it is released.
    pub fn snapshot(&mut self) -> (r: Snapshot)
        requires
            old(self).wf(),
        ensures
            final(self).wf(),
            r.seq == old(self).last_sequence(),
            final(self).live(r.seq),
            final(self).snapshots@ == old(self).snapshots@.push(r.seq),
            *final(self) == (DB { snapshots: final(self).snapshots, ..*old(self) }),
    {
        let seq = self.last_seq;
        self.snapshots.push(seq);
        proof {
            assert(self.snapshots@[self.snapshots@.len() - 1] == seq);
            assert forall|k: Seq<u8>, s: u64| self.live(s) implies #[trigger] value_at(self.runs(), k, s) == ref_value(self.history@, k, s as nat) by {
                if s != seq {
                    let i = choose|i: int| 0 <= i < self.snapshots@.len() && self.snapshots@[i] == s;
                    assert(old(self).snapshots@[i] == s);
                }
            }
        }
        Snapshot { seq }
    }

    /// Releases one hold on `snap`. Returns whether it was held.
    pub fn release_snapshot(&mut self, snap: Snapshot) -> (r: bool)
        requires
            old(self).wf(),
        ensures
            final(self).wf(),
            r == old(self).snapshots@.contains(snap.seq),
            r ==> final(self).snapshots@.len() == old(self).snapshots@.len() - 1,
            !r ==> final(self).snapshots@ == old(self).snapshots@,
            forall|s: u64| #[trigger] final(self).snapshots@.contains(s) ==> old(self).snapshots@.contains(s),
            *final(self) == (DB { snapshots: final(self).snapshots, ..*old(self) }),
    {
        let mut i: usize = 0;
        while i < self.snapshots.len()
            invariant
                *self == *old(self),
                self.wf(),
                0 <= i <= self.snapshots.len(),
                forall|x: int| 0 <= x < i ==> self.snapshots@[x] != snap.seq,
            decreases self.snapshots.len() - i,
        {
            if self.snapshots[i] == snap.seq {
                let ghost before = self.snapshots@;
                self.snapshots.remove(i);
                proof {
                    assert forall|s: u64| #[trigger] self.snapshots@.contains(s) implies before.contains(s) by {
                        let x = choose|x: int| 0 <= x < self.snapshots@.len() && self.snapshots@[x] == s;
                        if x < i {
                            assert(before[x] == s);
                        } else {
                            assert(before[x + 1] == s);
                        }
                    }
                    assert(before[i as int] == snap.seq);
                    assert forall|x: int| 0 <= x < self.snapshots@.len() implies #[trigger] self.snapshots@[x] <= self.last_seq by {
                        assert(self.snapshots@.contains(self.snapshots@[x]));
                        assert(before.contains(self.snapshots@[x]));
                        let y = choose|y: int| 0 <= y < before.len() && before[y] == self.snapshots@[x];
                        assert(old(self).snapshots@[y] <= self.last_seq);
                    }
                    assert forall|k: Seq<u8>, s: u64| self.live(s) implies #[trigger] value_at(self.runs(), k, s) == ref_value(self.history@, k, s as nat) by {
                        if s != self.last_seq {
                            assert(before.contains(s));
                            assert(old(self).live(s));
                        }
                    }
                }
                return true;
            }
            i = i + 1;
        }
        assert(!self.snapshots@.contains(snap.seq));
        false
    }

    /// Raises a background error: writes fail until it is cleared.
    pub fn set_background_error(&mut self, reason: DBBackgroundErrorReason)
        requires
            old(self).wf(),
        ensures
            final(self).wf(),
            *final(self) == (DB { bg_error: Some(reason), ..*old(self) }),
    {
        self.bg_error = Some(reason);
    }

    /// Applies the status an observer handed back: a reset status clears the
    /// background error, an error status leaves it in place.
    pub fn resume(&mut self, status: &crate::events::MutableStatus)
        requires
            old(self).wf(),
        ensures
            final(self).wf(),
            status.result is Ok ==> *final(self) == (DB { bg_error: None, ..*old(self) }),
            status.result is Err ==> *final(self) == *old(self),
    {
        if status.result.is_ok() {
            self.bg_error = None;
        }
    }

    /// Begins closing: every later write is refused.
    pub fn close(&mut self)
        requires
            old(self).wf(),
        ensures
            final(self).wf(),
            *final(self) == (DB { closing: true, ..*old(self) }),
    {
        self.closing = true;
    }

    /// The newest sequence number.
    pub fn latest_sequence_number(&self) -> (r: u64)
        ensures
            r == self.last_sequence(),
    {
        self.last_seq
    }

    /// The current write-stall condition.
    pub fn stall_condition(&self) -> (r: DBWriteStallCondition)
        ensures
            r == self.stall,
    {
        self.stall
    }

    /// Hands over the write-stall transitions recorded since the last call.
    pub fn take_stall_events(&mut self) -> (r: Vec<WriteStallInfo>)
        requires
            old(self).wf(),
        ensures
            final(self).wf(),
            r@ == old(self).stall_events@,
            final(self).stall_events@.len() == 0,
            *final(self) == (DB { stall_events: final(self).stall_events, ..*old(self) }),
    {
        let mut r: Vec<WriteStallInfo> = Vec::new();
        std::mem::swap(&mut r, &mut self.stall_events);
        r
    }

    /// The value of `key` as of the newest write.
    pub fn get(&self, key: &Vec<u8>) -> (r: Option<Vec<u8>>)
        requires
            self.wf(),
        ensures
            view_opt(r) == self.value(key@, self.last_sequence()),
            view_opt(r) == ref_value(self.log(), key@, self.last_sequence() as nat),
    {
        self.get_at(key, self.last_seq)
    }

    /// The value of `key` for a read bound to `snap`.
    pub fn get_snapshot(&self, key: &Vec<u8>, snap: Snapshot) -> (r: Option<Vec<u8>>)
        requires
            self.wf(),
        ensures
            view_opt(r) == self.value(key@, snap.seq),
            self.live(snap.seq) ==> view_opt(r) == ref_value(self.log(), key@, snap.seq as nat),
    {
        self.get_at(key, snap.seq)
    }

    /// Rebuilds a store from its write-ahead log `wal`, replaying every
    /// record in order. The log must hold the writes with sequence numbers
    /// 1, 2, ... in turn; a log that cannot be read that way is
    /// `Corruption`.
    pub fn recover(opts: ColumnFamilyOptions, wal: &Vec<u8>) -> (r: Result<DB, Error>)
        ensures
            r is Ok ==> r->Ok_0.wf() && r->Ok_0.opts == opts && r->Ok_0.snapshots@.len() == 0
                && r->Ok_0.wal@ == wal@,
            r is Err ==> r == Err::<DB, Error>(Error::Corruption),
            forall|h: Seq<Record>|
                #[trigger] enc_log(h) == wal@ && (forall|i: int| 0 <= i < h.len() ==> (#[trigger] h[i]).seq == i + 1)
                    ==> r is Ok && same_all(r->Ok_0.log(), h) && r->Ok_0.last_sequence() == h.len(),
    {
        let recs = match decode_log(wal) {
            Ok(v) => v,
            Err(e) => return Err(e),
        };
        let mut db = DB::open(opts);
        let mut i: usize = 0;
        while i < recs.len()
            invariant
                0 <= i <= recs.len(),
                db.wf_data(),
                db.opts == opts,
                db.snapshots@.len() == 0,
                db.last_seq == i,
                same_all(db.history@, recs@.take(i as int)),
                enc_log(recs@) == wal@,
                forall|h: Seq<Record>|
                    #[trigger] enc_log(h) == wal@ && (forall|x: int| 0 <= x < h.len() ==> (#[trigger] h[x]).seq == x + 1)
                        ==> same_all(recs@, h),
            decreases recs.len() - i,
        {
            let rec = &recs[i];
            if db.last_seq == u64::MAX || rec.seq != db.last_seq + 1 {
                proof {
                    assert forall|h: Seq<Record>|
                        #[trigger] enc_log(h) == wal@ && (forall|x: int| 0 <= x < h.len() ==> (#[trigger] h[x]).seq == x + 1)
                        implies false by {
                        assert(same(recs@[i as int], h[i as int]));
                        assert(h[i as int].seq == i + 1);
                    }
                }
                return Err(Error::Corruption);
            }
            let ghost before = db.history@;
            let _ = db.append(rec.kind, &rec.key, &rec.value);
            let c = rec.key.len() as u128 + rec.value.len() as u128 + 8;
            let total = db.mem_bytes as u128 + c;
            db.mem_bytes = if total > u64::MAX as u128 { u64::MAX } else { total as u64 };
            proof {
                assert(db.history@ =~= before.push(db.history@.last()));
                assert(recs@.take(i + 1) =~= recs@.take(i as int).push(recs@[i as int]));
                assert forall|x: int| 0 <= x < i + 1 implies same(#[trigger] db.history@[x], recs@.take(i + 1)[x]) by {
                    if x < i {
                        assert(same(before[x], recs@.take(i as int)[x]));
                    } else {
                        assert(db.history@[x] == db.history@.last());
                    }
                }
            }
            i = i + 1;
        }
        db.refresh_stall();
        proof {
            assert(recs@.take(i as int) =~= recs@);
            assert forall|h: Seq<Record>|
                #[trigger] enc_log(h) == wal@ && (forall|x: int| 0 <= x < h.len() ==> (#[trigger] h[x]).seq == x + 1)
                implies same_all(db.log(), h) by {
                assert(same_all(recs@, h));
                assert forall|x: int| 0 <= x < h.len() implies same(#[trigger] db.log()[x], h[x]) by {
                    assert(same(db.history@[x], recs@[x]));
                    assert(same(recs@[x], h[x]));
                }
            }
            crate::wal::lemma_enc_same(db.history@, recs@);
        }
        Ok(db)
    }

    /// One record per stored record whose key is not below `start`, each
    /// carrying only the key.
    fn scan_candidates(&self, start: &Vec<u8>) -> (c: Vec<Record>)
        ensures
            forall|x: int| 0 <= x < c@.len() ==> !bytes_lt((#[trigger] c@[x]).key@, start@),
            forall|a: int, b: int|
                at(self.runs(), a, b) && !bytes_lt((#[trigger] self.runs()[a][b]).key@, start@) ==> exists|x: int|
                    0 <= x < c@.len() && (#[trigger] c@[x]).key@ == self.runs()[a][b].key@,
    {
        let ghost runs = self.runs();
        let mut c: Vec<Record> = Vec::new();
        let mut i: usize = 0;
        loop
            invariant_except_break
                0 <= i <= self.files.len(),
                forall|a: int, b: int|
                    at(runs, a, b) && a < i && !bytes_lt((#[trigger] runs[a][b]).key@, start@) ==> exists|x: int|
                        0 <= x < c@.len() && (#[trigger] c@[x]).key@ == runs[a][b].key@,
            invariant
                runs == self.runs(),
                forall|x: int| 0 <= x < c@.len() ==> !bytes_lt((#[trigger] c@[x]).key@, start@),
            ensures
                forall|a: int, b: int|
                    at(runs, a, b) && !bytes_lt((#[trigger] runs[a][b]).key@, start@) ==> exists|x: int|
                        0 <= x < c@.len() && (#[trigger] c@[x]).key@ == runs[a][b].key@,
            decreases self.files.len() - i,
        {
            let run = self.run_ref(i);
            let mut j: usize = 0;
            while j < run.len()
                invariant
                    runs == self.runs(),
                    0 <= i <= self.files.len(),
                    run@ == runs[i as int],
                    0 <= j <= run.len(),
                    forall|x: int| 0 <= x < c@.len() ==> !bytes_lt((#[trigger] c@[x]).key@, start@),
                    forall|a: int, b: int|
                        at(runs, a, b) && (a < i || (a == i && b < j)) && !bytes_lt((#[trigger] runs[a][b]).key@, start@)
                            ==> exists|x: int| 0 <= x < c@.len() && (#[trigger] c@[x]).key@ == runs[a][b].key@,
                decreases run.len() - j,
            {
                if compare_bytes(&run[j].key, start) >= 0 {
                    let ghost before = c@;
                    c.push(Record { key: copy_bytes(&run[j].key), seq: 0, kind: EntryType::EntryPut, value: Vec::new() });
                    proof {
                        assert forall|a: int, b: int|
                            at(runs, a, b) && (a < i || (a == i && b <= j)) && !bytes_lt((#[trigger] runs[a][b]).key@, start@)
                            implies exists|x: int| 0 <= x < c@.len() && (#[trigger] c@[x]).key@ == runs[a][b].key@ by {
                            if a == i && b == j {
                                assert(c@[before.len() as int].key@ == runs[a][b].key@);
                            } else {
                                let x = choose|x: int| 0 <= x < before.len() && (#[trigger] before[x]).key@ == runs[a][b].key@;
                                assert(c@[x] == before[x]);
                            }
                        }
                    }
                }
                j = j + 1;
            }
            if i == self.files.len() {
                break;
            }
            i = i + 1;
        }
        c
    }

    /// Every key not below `start` that has a value at horizon `s`, with
    /// that value, in ascending key order.
    pub fn scan(&self, start: &Vec<u8>, s: u64) -> (r: Vec<(Vec<u8>, Vec<u8>)>)
        requires
            self.wf(),
        ensures
            forall|i: int, j: int| 0 <= i < j < r@.len() ==> bytes_lt((#[trigger] r@[i]).0@, (#[trigger] r@[j]).0@),
            forall|i: int| 0 <= i < r@.len() ==> !bytes_lt((#[trigger] r@[i]).0@, start@) && self.value(r@[i].0@, s)
                == Some(r@[i].1@),
            forall|k: Seq<u8>| !bytes_lt(k, start@) && (#[trigger] self.value(k, s)) is Some ==> exists|i: int|
                0 <= i < r@.len() && (#[trigger] r@[i]).0@ == k,
    {
        let cands = self.scan_candidates(start);
        let ghost cv = cands@;
        let keys = sort_records(cands);
        let ghost kv = keys@;
        proof {
            assert forall|x: int| 0 <= x < kv.len() implies !bytes_lt((#[trigger] kv[x]).key@, start@) by {
                assert(at(seq![kv], 0, x));
                assert(in_runs(seq![cv], seq![kv][0][x]));
                let (c, d) = choose|c: int, d: int| at(seq![cv], c, d) && same(#[trigger] seq![cv][c][d], seq![kv][0][x]);
                assert(!bytes_lt(cv[d].key@, start@));
            }
        }
        let mut out: Vec<(Vec<u8>, Vec<u8>)> = Vec::new();
        let mut i: usize = 0;
        while i < keys.len()
            invariant
                self.wf(),
                kv == keys@,
                sorted(kv),
                forall|x: int| 0 <= x < kv.len() ==> !bytes_lt((#[trigger] kv[x]).key@, start@),
                0 <= i <= kv.len(),
                out@.len() <= i,
                forall|a: int, b: int| 0 <= a < b < out@.len() ==> bytes_lt((#[trigger] out@[a]).0@, (#[trigger] out@[b]).0@),
                forall|a: int| 0 <= a < out@.len() ==> !bytes_lt((#[trigger] out@[a]).0@, start@) && self.value(out@[a].0@, s)
                    == Some(out@[a].1@),
                i > 0 ==> forall|a: int| 0 <= a < out@.len() ==> !bytes_lt(kv[i - 1].key@, (#[trigger] out@[a]).0@),
                forall|x: int| 0 <= x < i ==> (#[trigger] self.value(kv[x].key@, s)) is None || exists|a: int|
                    0 <= a < out@.len() && (#[trigger] out@[a]).0@ == kv[x].key@,
            decreases kv.len() - i,
        {
            let dup = i > 0 && compare_bytes(&keys[i - 1].key, &keys[i].key) == 0;
            if !dup {
                let key = &keys[i].key;
                match self.get_at(key, s) {
                    Some(v) => {
                        let ghost before = out@;
                        proof {
                            if i > 0 {
                                assert(ikey_le(kv[i - 1], kv[i as int]));
                                assert(bytes_lt(kv[i - 1].key@, kv[i as int].key@));
                                assert forall|a: int| 0 <= a < before.len() implies bytes_lt(#[trigger] before[a].0@, kv[i as int].key@) by {
                                    crate::order::lemma_bytes_lt_total(before[a].0@, kv[i - 1].key@);
                                    if bytes_lt(before[a].0@, kv[i - 1].key@) {
                                        lemma_bytes_lt_transitive(before[a].0@, kv[i - 1].key@, kv[i as int].key@);
                                    }
                                }
                            }
                        }
                        out.push((copy_bytes(key), v));
                        proof {
                            assert forall|a: int, b: int| 0 <= a < b < out@.len() implies bytes_lt((#[trigger] out@[a]).0@, (#[trigger] out@[b]).0@) by {
                                if b < before.len() {
                                    assert(out@[a] == before[a] && out@[b] == before[b]);
                                } else {
                                    assert(out@[a] == before[a]);
                                }
                            }
                            assert forall|a: int| 0 <= a < out@.len() implies !bytes_lt(kv[i as int].key@, (#[trigger] out@[a]).0@) by {
                                if a < before.len() {
                                    assert(out@[a] == before[a]);
                                    crate::order::lemma_bytes_lt_irreflexive(kv[i as int].key@);
                                    if bytes_lt(kv[i as int].key@, before[a].0@) {
                                        lemma_bytes_lt_transitive(before[a].0@, kv[i as int].key@, before[a].0@);
                                        lemma_bytes_lt_irreflexive(before[a].0@);
                                    }
                                } else {
                                    lemma_bytes_lt_irreflexive(kv[i as int].key@);
                                }
                            }
                            assert forall|x: int| 0 <= x <= i implies (#[trigger] self.value(kv[x].key@, s)) is None || exists|a: int|
                                0 <= a < out@.len() && (#[trigger] out@[a]).0@ == kv[x].key@ by {
                                if x < i {
                                    if self.value(kv[x].key@, s) is Some {
                                        let a = choose|a: int| 0 <= a < before.len() && (#[trigger] before[a]).0@ == kv[x].key@;
                                        assert(out@[a] == before[a]);
                                    }
                                } else {
                                    assert(out@[before.len() as int].0@ == kv[x].key@);
                                }
                            }
                        }
                    },
                    None => {
                        proof {
                            if i > 0 {
                                assert(ikey_le(kv[i - 1], kv[i as int]));
                                assert forall|a: int| 0 <= a < out@.len() implies !bytes_lt(kv[i as int].key@, (#[trigger] out@[a]).0@) by {
                                    crate::order::lemma_bytes_lt_total(out@[a].0@, kv[i - 1].key@);
                                    if bytes_lt(kv[i as int].key@, out@[a].0@) {
                                        if bytes_lt(kv[i - 1].key@, kv[i as int].key@) {
                                            lemma_bytes_lt_transitive(kv[i - 1].key@, kv[i as int].key@, out@[a].0@);
                                        }
                                    }
                                }
                            }
                        }
                    },
                }
            } else {
                proof {
                    assert(kv[i - 1].key@ == kv[i as int].key@);
                }
            }
            i = i + 1;
        }
        proof {
            assert forall|k: Seq<u8>| !bytes_lt(k, start@) && (#[trigger] self.value(k, s)) is Some implies exists|i: int|
                0 <= i < out@.len() && (#[trigger] out@[i]).0@ == k by {
                crate::model::lemma_value_has_record(self.runs(), k, s);
                let (a, b) = choose|a: int, b: int| at(self.runs(), a, b) && (#[trigger] self.runs()[a][b]).key@ == k;
                let x = choose|x: int| 0 <= x < cv.len() && (#[trigger] cv[x]).key@ == self.runs()[a][b].key@;
                assert(at(seq![cv], 0, x));
                assert(in_runs(seq![kv], seq![cv][0][x]));
                let (c, d) = choose|c: int, d: int| at(seq![kv], c, d) && same(#[trigger] seq![kv][c][d], seq![cv][0][x]);
                assert(kv[d].key@ == k);
                assert(self.value(kv[d].key@, s) is Some);
            }
        }
        out
    }

    /// The values of `keys` as of the newest write, in the same order.
    pub fn multi_get(&self, keys: &Vec<Vec<u8>>) -> (r: Vec<Option<Vec<u8>>>)
        requires
            self.wf(),
        ensures
            r@.len() == keys@.len(),
            forall|i: int| 0 <= i < keys@.len() ==> view_opt(#[trigger] r@[i]) == self.value(keys@[i]@, self.last_sequence()),
    {
        let mut r: Vec<Option<Vec<u8>>> = Vec::new();
        let mut i: usize = 0;
        while i < keys.len()
            invariant
                self.wf(),
                0 <= i <= keys@.len(),
                r@.len() == i,
                forall|x: int| 0 <= x < i ==> view_opt(#[trigger] r@[x]) == self.value(keys@[x]@, self.last_sequence()),
            decreases keys.len() - i,
        {
            r.push(self.get(&keys[i]));
            i = i + 1;
        }
        r
    }

    /// Every key that starts with `prefix` and has a value at horizon `s`,
    /// with that value, in ascending key order.
    pub fn prefix_scan(&self, prefix: &Vec<u8>, s: u64) -> (r: Vec<(Vec<u8>, Vec<u8>)>)
        requires
            self.wf(),
        ensures
            forall|i: int, j: int| 0 <= i < j < r@.len() ==> bytes_lt((#[trigger] r@[i]).0@, (#[trigger] r@[j]).0@),
            forall|i: int| 0 <= i < r@.len() ==> has_prefix((#[trigger] r@[i]).0@, prefix@) && self.value(r@[i].0@, s)
                == Some(r@[i].1@),
            forall|k: Seq<u8>| has_prefix(k, prefix@) && (#[trigger] self.value(k, s)) is Some ==> exists|i: int|
                0 <= i < r@.len() && (#[trigger] r@[i]).0@ == k,
    {
        let all = self.scan(prefix, s);
        let mut r: Vec<(Vec<u8>, Vec<u8>)> = Vec::new();
        let mut i: usize = 0;
        let ghost idx: Seq<int> = Seq::empty();
        while i < all.len()
            invariant
                self.wf(),
                0 <= i <= all@.len(),
                idx.len() == r@.len(),
                forall|a: int| 0 <= a < idx.len() ==> 0 <= #[trigger] idx[a] < i && r@[a].0@ == all@[idx[a]].0@ && r@[a].1@
                    == all@[idx[a]].1@,
                forall|a: int, b: int| 0 <= a < b < idx.len() ==> idx[a] < idx[b],
                forall|a: int| 0 <= a < r@.len() ==> has_prefix((#[trigger] r@[a]).0@, prefix@),
                forall|x: int| 0 <= x < i && has_prefix((#[trigger] all@[x]).0@, prefix@) ==> exists|a: int|
                    0 <= a < r@.len() && (#[trigger] r@[a]).0@ == all@[x].0@,
                forall|x: int, y: int| 0 <= x < y < all@.len() ==> bytes_lt((#[trigger] all@[x]).0@, (#[trigger] all@[y]).0@),
                forall|x: int| 0 <= x < all@.len() ==> !bytes_lt((#[trigger] all@[x]).0@, prefix@) && self.value(all@[x].0@, s)
                    == Some(all@[x].1@),
            decreases all.len() - i,
        {
            if starts_with(&all[i].0, prefix) {
                let ghost before = r@;
                r.push((copy_bytes(&all[i].0), copy_bytes(&all[i].1)));
                proof {
                    idx = idx.push(i as int);
                    assert forall|x: int| 0 <= x <= i && has_prefix((#[trigger] all@[x]).0@, prefix@) implies exists|a: int|
                        0 <= a < r@.len() && (#[trigger] r@[a]).0@ == all@[x].0@ by {
                        if x < i {
                            let a = choose|a: int| 0 <= a < before.len() && (#[trigger] before[a]).0@ == all@[x].0@;
                            assert(r@[a] == before[a]);
                        } else {
                            assert(r@[before.len() as int].0@ == all@[x].0@);
                        }
                    }
                }
            }
            i = i + 1;
        }
        proof {
            assert forall|a: int, b: int| 0 <= a < b < r@.len() implies bytes_lt((#[trigger] r@[a]).0@, (#[trigger] r@[b]).0@) by {
                assert(r@[a].0@ == all@[idx[a]].0@ && r@[b].0@ == all@[idx[b]].0@);
            }
            assert forall|a: int| 0 <= a < r@.len() implies self.value((#[trigger] r@[a]).0@, s) == Some(r@[a].1@) by {
                assert(r@[a].0@ == all@[idx[a]].0@ && r@[a].1@ == all@[idx[a]].1@);
            }
            assert forall|k: Seq<u8>| has_prefix(k, prefix@) && (#[trigger] self.value(k, s)) is Some implies exists|i: int|
                0 <= i < r@.len() && (#[trigger] r@[i]).0@ == k by {
                lemma_prefix_not_below(k, prefix@);
                let x = choose|x: int| 0 <= x < all@.len() && (#[trigger] all@[x]).0@ == k;
            }
        }
        r
    }

    /// Whether some key beginning with `prefix` has a value as of the
    /// newest write.
    pub fn prefix_exists(&self, prefix: &Vec<u8>) -> (r: bool)
        requires
            self.wf(),
        ensures
            r == exists|k: Seq<u8>| has_prefix(k, prefix@) && (#[trigger] self.value(k, self.last_sequence())) is Some,
    {
        let found = self.prefix_scan(prefix, self.last_seq);
        proof {
            if found@.len() > 0 {
                assert(self.value(found@[0].0@, self.last_sequence()) is Some);
            }
        }
        found.len() > 0
    }

    /// Replaces the manifest by one edit holding the whole current version,
    /// as when a manifest grown too large is rolled over.
    pub fn roll_manifest(&mut self)
        requires
            old(self).wf(),
        ensures
            final(self).wf(),
            final(self).manifest@.len() == 1,
            replay(final(self).manifest@) == replay(old(self).manifest@),
            *final(self) == (DB { manifest: final(self).manifest, ..*old(self) }),
    {
        let edit = snapshot_edit(&self.files);
        let mut m: Vec<VersionEdit> = Vec::new();
        m.push(edit);
        self.manifest = m;
        proof {
            lemma_replay_snapshot(self.manifest@, self.files@);
        }
    }

    /// What to do after a write that returned `r`.
    pub fn after_write(&self, r: Result<u64, Error>) -> (a: WriteAction)
        requires
            self.wf(),
        ensures
            a == write_action(*self, r),
    {
        let full = self.should_flush();
        match r {
            Err(Error::Busy) => {
                if full {
                    WriteAction::FlushThenRetry
                } else if self.level_file_count(0) > 0 {
                    WriteAction::CompactLevel0ThenRetry
                } else {
                    WriteAction::Fail(Error::Busy)
                }
            },
            Err(e) => WriteAction::Fail(e),
            Ok(seq) => {
                if full {
                    WriteAction::FlushThenDone(seq)
                } else if self.stall == DBWriteStallCondition::Delayed {
                    WriteAction::PauseThenDone(seq)
                } else {
                    WriteAction::Done(seq)
                }
            },
        }
    }

    /// Removes every key in `[from, to)`, unless the store is closing, a
    /// background error is raised, or writes are stopped (as `write`). Each
    /// key of the range that has a value gets a Delete; the returned
    /// sequence number is the newest. Fails with `InvalidArgument` when
    /// sequence numbers would run out.
    pub fn delete_range(&mut self, from: &Vec<u8>, to: &Vec<u8>) -> (r: Result<u64, Error>)
        requires
            old(self).wf(),
        ensures
            final(self).wf(),
            old(self).closing ==> r == Err::<u64, Error>(Error::ShutdownInProgress) && *final(self) == *old(self),
            !old(self).closing && old(self).bg_error is Some ==> r == Err::<u64, Error>(Error::Background) && *final(self)
                == *old(self),
            !old(self).closing && old(self).bg_error is None && old(self).stall == DBWriteStallCondition::Stopped ==> r
                == Err::<u64, Error>(Error::Busy) && *final(self) == *old(self),
            r is Err ==> *final(self) == *old(self),
            !old(self).closing && old(self).bg_error is None && old(self).stall != DBWriteStallCondition::Stopped ==> (r is Ok
                || r == Err::<u64, Error>(Error::InvalidArgument)),
            r is Ok ==> {
                &&& r->Ok_0 == final(self).last_sequence()
                &&& final(self).last_sequence() >= old(self).last_sequence()
                &&& final(self).log().subrange(0, old(self).log().len() as int) == old(self).log()
                &&& final(self).snapshots@ == old(self).snapshots@
                &&& forall|k: Seq<u8>, t: u64| t <= old(self).last_sequence() ==> #[trigger] final(self).value(k, t) == old(self).value(k, t)
                &&& forall|k: Seq<u8>| #[trigger] final(self).value(k, final(self).last_sequence()) == if !bytes_lt(k, from@) && bytes_lt(k, to@) {
                    None
                } else {
                    old(self).value(k, old(self).last_sequence())
                }
            },
    {
        if self.closing {
            return Err(Error::ShutdownInProgress);
        }
        if self.bg_error.is_some() {
            return Err(Error::Background);
        }
        if self.stall == DBWriteStallCondition::Stopped {
            return Err(Error::Busy);
        }
        let live = self.scan(from, self.last_seq);
        if live.len() as u128 > (u64::MAX - self.last_seq) as u128 {
            return Err(Error::InvalidArgument);
        }
        let ghost o = *self;
        let empty: Vec<u8> = Vec::new();
        let mut i: usize = 0;
        assert(self.history@.subrange(0, o.history@.len() as int) =~= o.history@);
        while i < live.len()
            invariant
                self.wf_data(),
                0 <= i <= live@.len(),
                self.snapshots@ == o.snapshots@,
                self.opts == o.opts,
                self.closing == o.closing,
                self.bg_error == o.bg_error,
                self.last_seq >= o.last_seq,
                self.last_seq - o.last_seq <= i,
                live@.len() <= u64::MAX - o.last_seq,
                self.history@.subrange(0, o.history@.len() as int) == o.history@,
                self.history@.len() >= o.history@.len(),
                forall|k: Seq<u8>, t: u64| t <= o.last_seq ==> #[trigger] self.value(k, t) == o.value(k, t),
                forall|x: int| 0 <= x < live@.len() ==> !bytes_lt((#[trigger] live@[x]).0@, from@) && o.value(live@[x].0@, o.last_seq)
                    == Some(live@[x].1@),
                forall|k: Seq<u8>| !bytes_lt(k, from@) && (#[trigger] o.value(k, o.last_seq)) is Some ==> exists|x: int|
                    0 <= x < live@.len() && (#[trigger] live@[x]).0@ == k,
                forall|k: Seq<u8>| #[trigger] self.value(k, self.last_seq) == if exists|x: int| 0 <= x < i && (#[trigger] live@[x]).0@ == k
                    && bytes_lt(k, to@) {
                    None
                } else {
                    o.value(k, o.last_seq)
                },
            decreases live@.len() - i,
        {
            let key = &live[i].0;
            if compare_bytes(key, to) < 0 {
                let ghost before = *self;
                let _ = self.append(EntryType::EntryDelete, key, &empty);
                let ghost a = *self;
                let c = key.len() as u128 + 8;
                let total = self.mem_bytes as u128 + c;
                self.mem_bytes = if total > u64::MAX as u128 { u64::MAX } else { total as u64 };
                proof {
                    assert(self.runs() =~= a.runs());
                    assert forall|k: Seq<u8>, t: u64| #[trigger] self.value(k, t) == a.value(k, t) by {}
                    assert(self.history@.subrange(0, o.history@.len() as int) =~= o.history@) by {
                        assert(self.history@.subrange(0, before.history@.len() as int) == before.history@);
                        assert forall|x: int| 0 <= x < o.history@.len() implies self.history@[x] == o.history@[x] by {
                            assert(self.history@[x] == self.history@.subrange(0, before.history@.len() as int)[x]);
                            assert(before.history@[x] == before.history@.subrange(0, o.history@.len() as int)[x]);
                        }
                    }
                    assert forall|k: Seq<u8>, t: u64| t <= o.last_seq implies #[trigger] self.value(k, t) == o.value(k, t) by {
                        assert(before.value(k, t) == o.value(k, t));
                        assert(a.value(k, t) == before.value(k, t));
                    }
                    assert forall|k: Seq<u8>| #[trigger] self.value(k, self.last_seq) == if exists|x: int| 0 <= x < i + 1 && (#[trigger] live@[x]).0@ == k
                        && bytes_lt(k, to@) {
                        None
                    } else {
                        o.value(k, o.last_seq)
                    } by {
                        assert(before.value(k, before.last_seq) == if exists|x: int| 0 <= x < i && (#[trigger] live@[x]).0@ == k
                            && bytes_lt(k, to@) {
                            None
                        } else {
                            o.value(k, o.last_seq)
                        });
                        assert(self.value(k, self.last_seq) == a.value(k, a.last_seq));
                        if k == key@ {
                            assert(live@[i as int].0@ == k);
                        } else {
                            if exists|x: int| 0 <= x < i + 1 && (#[trigger] live@[x]).0@ == k && bytes_lt(k, to@) {
                                let x = choose|x: int| 0 <= x < i + 1 && (#[trigger] live@[x]).0@ == k && bytes_lt(k, to@);
                                assert(x < i);
                            }
                        }
                    }
                }
            } else {
                proof {
                    assert forall|k: Seq<u8>| #[trigger] self.value(k, self.last_seq) == if exists|x: int| 0 <= x < i + 1 && (#[trigger] live@[x]).0@ == k
                        && bytes_lt(k, to@) {
                        None
                    } else {
                        o.value(k, o.last_seq)
                    } by {
                        if exists|x: int| 0 <= x < i + 1 && (#[trigger] live@[x]).0@ == k && bytes_lt(k, to@) {
                            let x = choose|x: int| 0 <= x < i + 1 && (#[trigger] live@[x]).0@ == k && bytes_lt(k, to@);
                            assert(x < i);
                        }
                    }
                }
            }
            i = i + 1;
        }
        let ghost b = *self;
        self.refresh_stall();
        proof {
            assert(self.runs() =~= b.runs());
            assert forall|k: Seq<u8>, t: u64| t <= o.last_seq implies #[trigger] self.value(k, t) == o.value(k, t) by {
                assert(b.value(k, t) == o.value(k, t));
            }
            assert forall|k: Seq<u8>| #[trigger] self.value(k, self.last_seq) == if !bytes_lt(k, from@) && bytes_lt(k, to@) {
                None
            } else {
                o.value(k, o.last_seq)
            } by {
                assert(self.value(k, self.last_seq) == b.value(k, b.last_seq));
                if exists|x: int| 0 <= x < i && (#[trigger] live@[x]).0@ == k && bytes_lt(k, to@) {
                    let x = choose|x: int| 0 <= x < i && (#[trigger] live@[x]).0@ == k && bytes_lt(k, to@);
                    assert(!bytes_lt(k, from@));
                } else if !bytes_lt(k, from@) && bytes_lt(k, to@) {
                    if o.value(k, o.last_seq) is Some {
                        let x = choose|x: int| 0 <= x < live@.len() && (#[trigger] live@[x]).0@ == k;
                    }
                }
            }
        }
        Ok(self.last_seq)
    }

    /// The value of `key` for a read bound to horizon `s`.
    pub fn get_at(&self, key: &Vec<u8>, s: u64) -> (r: Option<Vec<u8>>)
        requires
            self.wf(),
        ensures
            view_opt(r) == self.value(key@, s),
    {
        let ghost runs = self.runs();
        let ghost k = key@;
        let mut bound: u64 = s;
        let mut merged = false;
        let mut sfx: Vec<u8> = Vec::new();
        loop
            invariant
                self.wf_data(),
                runs == self.runs(),
                k == key@,
                bound <= s,
                !merged ==> sfx@.len() == 0,
                value_at(runs, k, s) == pending(value_at(runs, k, bound), merged, sfx@),
            decreases bound,
        {
            let found = self.find_newest(key, bound);
            match found {
                None => {
                    proof {
                        crate::model::lemma_gap(runs, k, -1, bound);
                    }
                    if merged {
                        return Some(sfx);
                    } else {
                        return None;
                    }
                },
                Some((i, j)) => {
                    let rec = &self.run_ref(i)[j];
                    proof {
                        lemma_newest(runs, k, bound, i as int, j as int);
                    }
                    let ghost prior = if rec.seq == 0 {
                        None
                    } else {
                        value_at(runs, k, (rec.seq - 1) as u64)
                    };
                    match rec.kind {
                        EntryType::EntryPut => {
                            if merged {
                                return Some(concat_bytes(&rec.value, &sfx));
                            } else {
                                return Some(copy_bytes(&rec.value));
                            }
                        },
                        EntryType::EntryDelete | EntryType::EntrySingleDelete => {
                            if merged {
                                return Some(sfx);
                            } else {
                                return None;
                            }
                        },
                        EntryType::EntryMerge => {
                            let ghost old_sfx = sfx@;
                            sfx = concat_bytes(&rec.value, &sfx);
                            proof {
                                match prior {
                                    Some(p) => {
                                        assert(p + rec.value@ + old_sfx =~= p + (rec.value@ + old_sfx));
                                    },
                                    None => {},
                                }
                                assert(rec.value@ + Seq::<u8>::empty() =~= rec.value@);
                            }
                            merged = true;
                        },
                        _ => {},
                    }
                    if rec.seq == 0 {
                        if merged {
                            return Some(sfx);
                        } else {
                            return None;
                        }
                    }
                    bound = rec.seq - 1;
                },
            }
        }
    }
}

} // verus!
