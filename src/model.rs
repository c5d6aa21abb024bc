//! The mathematical model of the store's contents: a collection of runs
//! (the memtable and the table files), each a sequence of records, and the
//! value a key has at a sequence-number horizon.
use vstd::prelude::*;
use crate::types::{EntryType, Record};

verus! {

/// The runs of a store: each one the records of the memtable or of a file.
pub type Runs = Seq<Seq<Record>>;

/// `(i, j)` names a record of `runs`.
pub open spec fn at(runs: Runs, i: int, j: int) -> bool {
    0 <= i < runs.len() && 0 <= j < runs[i].len()
}

/// Some record of `runs` has user key `k` and sequence number `q`.
pub open spec fn has_version(runs: Runs, k: Seq<u8>, q: u64) -> bool {
    exists|i: int, j: int| at(runs, i, j) && (#[trigger] runs[i][j]).key@ == k && runs[i][j].seq == q
}

/// The record of `runs` with user key `k` and sequence number `q`.
pub open spec fn version(runs: Runs, k: Seq<u8>, q: u64) -> Record
    recommends
        has_version(runs, k, q),
{
    let (i, j) = choose|i: int, j: int|
        at(runs, i, j) && (#[trigger] runs[i][j]).key@ == k && runs[i][j].seq == q;
    runs[i][j]
}

/// Records that share a user key and a sequence number agree on the rest.
pub open spec fn unique_versions(runs: Runs) -> bool {
    forall|i1: int, j1: int, i2: int, j2: int|
        at(runs, i1, j1) && at(runs, i2, j2) && (#[trigger] runs[i1][j1]).key@ == (
        #[trigger] runs[i2][j2]).key@ && runs[i1][j1].seq == runs[i2][j2].seq ==> runs[i1][j1].kind
            == runs[i2][j2].kind && runs[i1][j1].value@ == runs[i2][j2].value@
}

/// The merge operator: an operand is appended to the existing value.
pub open spec fn merge_onto(prior: Option<Seq<u8>>, operand: Seq<u8>) -> Seq<u8> {
    match prior {
        Some(v) => v + operand,
        None => operand,
    }
}

/// What a key holds after one operation, given what it held before.
pub open spec fn apply(kind: EntryType, operand: Seq<u8>, prior: Option<Seq<u8>>) -> Option<Seq<u8>> {
    match kind {
        EntryType::EntryPut => Some(operand),
        EntryType::EntryDelete => None,
        EntryType::EntrySingleDelete => None,
        EntryType::EntryMerge => Some(merge_onto(prior, operand)),
        _ => prior,
    }
}

/// The value of key `k` as seen by a read bound to horizon `s`: the
/// operations on `k` with sequence numbers up to `s`, applied in order.
pub open spec fn value_at(runs: Runs, k: Seq<u8>, s: u64) -> Option<Seq<u8>>
    decreases s,
{
    let prior = if s == 0 {
        None
    } else {
        value_at(runs, k, (s - 1) as u64)
    };
    if has_version(runs, k, s) {
        let r = version(runs, k, s);
        apply(r.kind, r.value@, prior)
    } else {
        prior
    }
}

/// No record of `k` has a sequence number in `(lo, hi]`.
pub open spec fn gap(runs: Runs, k: Seq<u8>, lo: int, hi: int) -> bool {
    forall|i: int, j: int|
        at(runs, i, j) && (#[trigger] runs[i][j]).key@ == k ==> runs[i][j].seq <= lo
            || runs[i][j].seq > hi
}

/// With no record of `k` in `(lo, hi]`, the value at `hi` is the value at `lo`
/// (or absent, when `lo` is below every sequence number).
pub proof fn lemma_gap(runs: Runs, k: Seq<u8>, lo: int, hi: u64)
    requires
        -1 <= lo <= hi,
        gap(runs, k, lo, hi as int),
    ensures
        lo == -1 ==> value_at(runs, k, hi) is None,
        lo >= 0 ==> value_at(runs, k, hi) == value_at(runs, k, lo as u64),
    decreases hi,
{
    if lo < hi {
        assert(!has_version(runs, k, hi));
        if hi > 0 {
            lemma_gap(runs, k, lo, (hi - 1) as u64);
        }
    } else if lo == -1 {
        assert(hi == 0);
        assert(!has_version(runs, k, hi));
    }
}

/// Under unique versions, the chosen version is any record with that key
/// and sequence number.
pub proof fn lemma_version_is(runs: Runs, k: Seq<u8>, i: int, j: int)
    requires
        unique_versions(runs),
        at(runs, i, j),
        runs[i][j].key@ == k,
    ensures
        has_version(runs, k, runs[i][j].seq),
        version(runs, k, runs[i][j].seq).kind == runs[i][j].kind,
        version(runs, k, runs[i][j].seq).value@ == runs[i][j].value@,
        version(runs, k, runs[i][j].seq).key@ == k,
{
    assert(has_version(runs, k, runs[i][j].seq));
}

/// The value at `s` when the newest record of `k` up to `s` sits at `(i, j)`.
pub proof fn lemma_newest(runs: Runs, k: Seq<u8>, s: u64, i: int, j: int)
    requires
        unique_versions(runs),
        at(runs, i, j),
        runs[i][j].key@ == k,
        runs[i][j].seq <= s,
        gap(runs, k, runs[i][j].seq as int, s as int),
    ensures
        value_at(runs, k, s) == apply(
            runs[i][j].kind,
            runs[i][j].value@,
            if runs[i][j].seq == 0 {
                None
            } else {
                value_at(runs, k, (runs[i][j].seq - 1) as u64)
            },
        ),
{
    let q = runs[i][j].seq;
    lemma_gap(runs, k, q as int, s);
    lemma_version_is(runs, k, i, j);
}

} // verus!

verus! {

/// Two records carry the same key, sequence number, kind and operand.
pub open spec fn same(a: Record, b: Record) -> bool {
    a.key@ == b.key@ && a.seq == b.seq && a.kind == b.kind && a.value@ == b.value@
}

/// `runs` holds a record equal to `r`.
pub open spec fn in_runs(runs: Runs, r: Record) -> bool {
    exists|i: int, j: int| at(runs, i, j) && same(#[trigger] runs[i][j], r)
}

/// `r1` and `r2` hold the same records of key `k` with sequence numbers in `(lo, hi]`.
pub open spec fn agree(r1: Runs, r2: Runs, k: Seq<u8>, lo: int, hi: int) -> bool {
    forall|r: Record|
        #![trigger in_runs(r1, r)]
        #![trigger in_runs(r2, r)]
        r.key@ == k && lo < r.seq <= hi ==> (in_runs(r1, r) <==> in_runs(r2, r))
}

/// Runs that agree on the records of `k` in `(lo, hi]`, and on the value at
/// `lo`, agree on the value at `hi`.
pub proof fn lemma_agree_value(r1: Runs, r2: Runs, k: Seq<u8>, lo: int, hi: u64)
    requires
        unique_versions(r1),
        unique_versions(r2),
        -1 <= lo <= hi,
        agree(r1, r2, k, lo, hi as int),
        lo >= 0 ==> value_at(r1, k, lo as u64) == value_at(r2, k, lo as u64),
    ensures
        value_at(r1, k, hi) == value_at(r2, k, hi),
    decreases hi,
{
    if lo < hi {
        if hi > 0 {
            lemma_agree_value(r1, r2, k, lo, (hi - 1) as u64);
        }
        if has_version(r1, k, hi) {
            let (i, j) = choose|i: int, j: int|
                at(r1, i, j) && (#[trigger] r1[i][j]).key@ == k && r1[i][j].seq == hi;
            lemma_version_is(r1, k, i, j);
            assert(same(r1[i][j], r1[i][j]));
            assert(in_runs(r1, r1[i][j]));
            assert(in_runs(r2, r1[i][j]));
            let (i2, j2) = choose|i2: int, j2: int| at(r2, i2, j2) && same(#[trigger] r2[i2][j2], r1[i][j]);
            lemma_version_is(r2, k, i2, j2);
        } else if has_version(r2, k, hi) {
            let (i, j) = choose|i: int, j: int|
                at(r2, i, j) && (#[trigger] r2[i][j]).key@ == k && r2[i][j].seq == hi;
            assert(same(r2[i][j], r2[i][j]));
            assert(in_runs(r2, r2[i][j]));
            assert(in_runs(r1, r2[i][j]));
            let (i2, j2) = choose|i2: int, j2: int| at(r1, i2, j2) && same(#[trigger] r1[i2][j2], r2[i][j]);
            assert(has_version(r1, k, hi));
        }
    }
}

} // verus!

verus! {

/// The reference semantics: the first `n` operations of a write history
/// (the `i`-th carrying sequence number `i + 1`), applied in order to key `k`.
pub open spec fn ref_value(h: Seq<Record>, k: Seq<u8>, n: nat) -> Option<Seq<u8>>
    recommends
        n <= h.len(),
    decreases n,
{
    if n == 0 {
        None
    } else {
        let prior = ref_value(h, k, (n - 1) as nat);
        let op = h[n - 1];
        if op.key@ == k {
            apply(op.kind, op.value@, prior)
        } else {
            prior
        }
    }
}

/// Extending a history leaves the value of its prefixes unchanged.
pub proof fn lemma_ref_prefix(h: Seq<Record>, x: Record, k: Seq<u8>, n: nat)
    requires
        n <= h.len(),
    ensures
        ref_value(h.push(x), k, n) == ref_value(h, k, n),
    decreases n,
{
    if n > 0 {
        lemma_ref_prefix(h, x, k, (n - 1) as nat);
        assert(h.push(x)[n - 1] == h[n - 1]);
    }
}

} // verus!

verus! {

/// Every record of `r2` also stands in `r1`.
pub open spec fn covered(r2: Runs, r1: Runs) -> bool {
    forall|i: int, j: int| at(r2, i, j) ==> in_runs(r1, #[trigger] r2[i][j])
}

/// Records drawn from runs with unique versions have unique versions.
pub proof fn lemma_covered_unique(r1: Runs, r2: Runs)
    requires
        unique_versions(r1),
        covered(r2, r1),
    ensures
        unique_versions(r2),
{
    assert forall|i1: int, j1: int, i2: int, j2: int|
        at(r2, i1, j1) && at(r2, i2, j2) && (#[trigger] r2[i1][j1]).key@ == (
        #[trigger] r2[i2][j2]).key@ && r2[i1][j1].seq == r2[i2][j2].seq implies r2[i1][j1].kind
            == r2[i2][j2].kind && r2[i1][j1].value@ == r2[i2][j2].value@ by {
        assert(in_runs(r1, r2[i1][j1]));
        assert(in_runs(r1, r2[i2][j2]));
        let (a1, b1) = choose|a: int, b: int| at(r1, a, b) && same(#[trigger] r1[a][b], r2[i1][j1]);
        let (a2, b2) = choose|a: int, b: int| at(r1, a, b) && same(#[trigger] r1[a][b], r2[i2][j2]);
        assert(r1[a1][b1].key@ == r1[a2][b2].key@);
    }
}

/// Runs that hold the same records, however arranged, give every key the
/// same value at every horizon.
pub proof fn lemma_rearranged(r1: Runs, r2: Runs)
    requires
        unique_versions(r1),
        covered(r2, r1),
        covered(r1, r2),
    ensures
        unique_versions(r2),
        forall|k: Seq<u8>, t: u64| #[trigger] value_at(r2, k, t) == value_at(r1, k, t),
{
    lemma_covered_unique(r1, r2);
    assert forall|k: Seq<u8>, t: u64| #[trigger] value_at(r2, k, t) == value_at(r1, k, t) by {
        assert forall|r: Record| r.key@ == k && -1 < r.seq <= t implies (in_runs(r1, r) <==> in_runs(r2, r)) by {
            if in_runs(r1, r) {
                let (i, j) = choose|i: int, j: int| at(r1, i, j) && same(#[trigger] r1[i][j], r);
                assert(in_runs(r2, r1[i][j]));
                let (a, b) = choose|a: int, b: int| at(r2, a, b) && same(#[trigger] r2[a][b], r1[i][j]);
            }
            if in_runs(r2, r) {
                let (i, j) = choose|i: int, j: int| at(r2, i, j) && same(#[trigger] r2[i][j], r);
                assert(in_runs(r1, r2[i][j]));
                let (a, b) = choose|a: int, b: int| at(r1, a, b) && same(#[trigger] r1[a][b], r2[i][j]);
            }
        }
        lemma_agree_value(r1, r2, k, -1, t);
    }
}

} // verus!

verus! {

/// The newest version of `k` at sequence number `q` replaces everything older.
pub open spec fn barrier_at(runs: Runs, k: Seq<u8>, q: u64) -> bool {
    has_version(runs, k, q) && version(runs, k, q).kind.is_barrier()
}

/// `r` is superseded for every horizon from `m` on: a Put or a Delete of
/// its key, newer than `r` and not newer than `m`, stands in `runs`.
pub open spec fn shadowed(runs: Runs, r: Record, m: u64) -> bool {
    exists|i: int, j: int|
        at(runs, i, j) && (#[trigger] runs[i][j]).key@ == r.key@ && r.seq < runs[i][j].seq <= m
            && runs[i][j].kind.is_barrier()
}

/// The newest sequence number up to `m` at which `k` has a Put or a Delete,
/// or -1.
pub open spec fn last_barrier(runs: Runs, k: Seq<u8>, m: u64) -> int
    decreases m,
{
    if barrier_at(runs, k, m) {
        m as int
    } else if m == 0 {
        -1
    } else {
        last_barrier(runs, k, (m - 1) as u64)
    }
}

proof fn lemma_last_barrier(runs: Runs, k: Seq<u8>, m: u64)
    ensures
        -1 <= last_barrier(runs, k, m) <= m,
        last_barrier(runs, k, m) >= 0 ==> barrier_at(runs, k, last_barrier(runs, k, m) as u64),
        forall|q: u64| last_barrier(runs, k, m) < q <= m ==> !#[trigger] barrier_at(runs, k, q),
    decreases m,
{
    if !barrier_at(runs, k, m) && m > 0 {
        lemma_last_barrier(runs, k, (m - 1) as u64);
    }
}

proof fn lemma_kept_from(r1: Runs, r2: Runs, m: u64, k: Seq<u8>)
    requires
        unique_versions(r1),
        forall|i: int, j: int| at(r1, i, j) ==> in_runs(r2, #[trigger] r1[i][j]) || shadowed(r1, r1[i][j], m),
    ensures
        forall|i: int, j: int| at(r1, i, j) && (#[trigger] r1[i][j]).key@ == k && r1[i][j].seq >= last_barrier(r1, k, m)
            ==> in_runs(r2, r1[i][j]),
{
    let t = last_barrier(r1, k, m);
    lemma_last_barrier(r1, k, m);
    assert forall|i: int, j: int| at(r1, i, j) && (#[trigger] r1[i][j]).key@ == k && r1[i][j].seq >= t
        implies in_runs(r2, r1[i][j]) by {
        if !in_runs(r2, r1[i][j]) {
            assert(shadowed(r1, r1[i][j], m));
            let (a, b) = choose|a: int, b: int|
                at(r1, a, b) && (#[trigger] r1[a][b]).key@ == r1[i][j].key@ && r1[i][j].seq < r1[a][b].seq <= m
                    && r1[a][b].kind.is_barrier();
            lemma_version_is(r1, k, a, b);
            assert(barrier_at(r1, k, r1[a][b].seq));
        }
    }
}

proof fn lemma_agree_from(r1: Runs, r2: Runs, k: Seq<u8>, t: int, s: u64)
    requires
        covered(r2, r1),
        forall|i: int, j: int| at(r1, i, j) && (#[trigger] r1[i][j]).key@ == k && r1[i][j].seq >= t
            ==> in_runs(r2, r1[i][j]),
    ensures
        agree(r1, r2, k, t, s as int),
{
    assert forall|r: Record| r.key@ == k && t < r.seq <= s implies (in_runs(r1, r) <==> in_runs(r2, r)) by {
        if in_runs(r1, r) {
            let (i, j) = choose|i: int, j: int| at(r1, i, j) && same(#[trigger] r1[i][j], r);
            assert(in_runs(r2, r1[i][j]));
            let (a, b) = choose|a: int, b: int| at(r2, a, b) && same(#[trigger] r2[a][b], r1[i][j]);
            assert(same(r2[a][b], r));
        }
        if in_runs(r2, r) {
            let (i, j) = choose|i: int, j: int| at(r2, i, j) && same(#[trigger] r2[i][j], r);
            assert(in_runs(r1, r2[i][j]));
            let (a, b) = choose|a: int, b: int| at(r1, a, b) && same(#[trigger] r1[a][b], r2[i][j]);
            assert(same(r1[a][b], r));
        }
    }
}

proof fn lemma_barrier_value(r1: Runs, r2: Runs, k: Seq<u8>, tq: u64)
    requires
        unique_versions(r1),
        unique_versions(r2),
        barrier_at(r1, k, tq),
        forall|i: int, j: int| at(r1, i, j) && (#[trigger] r1[i][j]).key@ == k && r1[i][j].seq >= tq
            ==> in_runs(r2, r1[i][j]),
    ensures
        value_at(r2, k, tq) == value_at(r1, k, tq),
{
    let (i, j) = choose|i: int, j: int| at(r1, i, j) && (#[trigger] r1[i][j]).key@ == k && r1[i][j].seq == tq;
    lemma_version_is(r1, k, i, j);
    assert(in_runs(r2, r1[i][j]));
    let (a, b) = choose|a: int, b: int| at(r2, a, b) && same(#[trigger] r2[a][b], r1[i][j]);
    lemma_version_is(r2, k, a, b);
}

/// Compaction is value-preserving: when every record of `r2` comes from
/// `r1`, and every record of `r1` that `r2` lacks is superseded by a Put or
/// a Delete of its key no newer than `m`, then every key has the same value
/// in both at every horizon from `m` on.
pub proof fn lemma_compaction_preserves(r1: Runs, r2: Runs, m: u64, k: Seq<u8>, s: u64)
    requires
        unique_versions(r1),
        covered(r2, r1),
        forall|i: int, j: int| at(r1, i, j) ==> in_runs(r2, #[trigger] r1[i][j]) || shadowed(r1, r1[i][j], m),
        m <= s,
    ensures
        unique_versions(r2),
        value_at(r2, k, s) == value_at(r1, k, s),
{
    lemma_covered_unique(r1, r2);
    let t = last_barrier(r1, k, m);
    lemma_last_barrier(r1, k, m);
    lemma_kept_from(r1, r2, m, k);
    lemma_agree_from(r1, r2, k, t, s);
    if t >= 0 {
        lemma_barrier_value(r1, r2, k, t as u64);
    }
    lemma_agree_value(r1, r2, k, t, s);
}

} // verus!

verus! {

/// What one run holds, a collection holding that run holds too.
pub proof fn lemma_in_single(v: Seq<Record>, runs: Runs, i0: int, r: Record)
    requires
        0 <= i0 < runs.len(),
        runs[i0] == v,
        in_runs(seq![v], r),
    ensures
        in_runs(runs, r),
{
    let (a, b) = choose|a: int, b: int| at(seq![v], a, b) && same(#[trigger] seq![v][a][b], r);
    assert(runs[i0][b] == seq![v][a][b]);
    assert(at(runs, i0, b));
}

/// What `a` holds, `b` holds too when `b` covers `a`.
pub proof fn lemma_in_covered(a: Runs, b: Runs, r: Record)
    requires
        in_runs(a, r),
        covered(a, b),
    ensures
        in_runs(b, r),
{
    let (i, j) = choose|i: int, j: int| at(a, i, j) && same(#[trigger] a[i][j], r);
    assert(in_runs(b, a[i][j]));
    let (x, y) = choose|x: int, y: int| at(b, x, y) && same(#[trigger] b[x][y], a[i][j]);
}

} // verus!

verus! {

/// A key with a value at some horizon has a record in the runs.
pub proof fn lemma_value_has_record(runs: Runs, k: Seq<u8>, s: u64)
    requires
        value_at(runs, k, s) is Some,
    ensures
        exists|i: int, j: int| at(runs, i, j) && (#[trigger] runs[i][j]).key@ == k,
    decreases s,
{
    if !has_version(runs, k, s) {
        if s > 0 {
            lemma_value_has_record(runs, k, (s - 1) as u64);
        }
    }
}

} // verus!
