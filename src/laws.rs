//! Laws of the store that relate several operations or hold of every state.
use vstd::prelude::*;
use crate::checkpoint::Checkpoint;
use crate::db::DB;
use crate::model::{Runs, at, gap, unique_versions, value_at, ref_value, lemma_newest};
use crate::types::{EntryType, Record};
use crate::wal::{enc_log, same_all};

verus! {

/// The reference value over a history depends only on the operations it
/// reads: extending the history leaves it unchanged.
pub proof fn lemma_ref_extends(h1: Seq<crate::types::Record>, h2: Seq<crate::types::Record>, k: Seq<u8>, n: nat)
    requires
        n <= h1.len() <= h2.len(),
        h2.subrange(0, h1.len() as int) == h1,
    ensures
        ref_value(h2, k, n) == ref_value(h1, k, n),
    decreases n,
{
    if n > 0 {
        lemma_ref_extends(h1, h2, k, (n - 1) as nat);
        assert(h2[n - 1] == h2.subrange(0, h1.len() as int)[n - 1]);
    }
}

/// Snapshot isolation: a read bound to a snapshot taken when the newest
/// write was `s` sees the reference value of the writes up to `s`, however
/// many writes, flushes and compactions came after.
pub proof fn lemma_snapshot_isolation(before: DB, after: DB, k: Seq<u8>, s: u64)
    requires
        before.wf(),
        after.wf(),
        before.log().len() <= after.log().len(),
        after.log().subrange(0, before.log().len() as int) == before.log(),
        s <= before.last_sequence(),
        after.live(s),
    ensures
        after.value(k, s) == ref_value(before.log(), k, s as nat),
        before.live(s) ==> after.value(k, s) == before.value(k, s),
{
    assert(after.value(k, s) == ref_value(after.log(), k, s as nat));
    lemma_ref_extends(before.log(), after.log(), k, s as nat);
    if before.live(s) {
        assert(before.value(k, s) == ref_value(before.log(), k, s as nat));
    }
}

/// Tombstone precedence: when the newest record of `k` visible at `s` is a
/// Delete, `k` reads as absent at `s`, whatever older records of `k` remain.
pub proof fn lemma_tombstone(runs: Runs, k: Seq<u8>, s: u64, i: int, j: int)
    requires
        unique_versions(runs),
        at(runs, i, j),
        runs[i][j].key@ == k,
        runs[i][j].kind == EntryType::EntryDelete || runs[i][j].kind == EntryType::EntrySingleDelete,
        runs[i][j].seq <= s,
        gap(runs, k, runs[i][j].seq as int, s as int),
    ensures
        value_at(runs, k, s) is None,
{
    lemma_newest(runs, k, s, i, j);
}

/// Round trip: in every reachable state, reading any key back at the newest
/// write gives what applying the whole write history in sequence order
/// gives, wherever its records now lie.
pub proof fn lemma_round_trip(db: DB, k: Seq<u8>)
    requires
        db.wf(),
    ensures
        db.value(k, db.last_sequence()) == ref_value(db.log(), k, db.last_sequence() as nat),
{
}

/// Checkpoint consistency: a store opened from a checkpoint shows, at every
/// horizon, exactly what the source showed when the checkpoint was taken.
pub proof fn lemma_checkpoint_consistent(source: DB, cp: Checkpoint, opened: DB, k: Seq<u8>, t: u64)
    requires
        source.wf(),
        cp.wf(),
        forall|k2: Seq<u8>, t2: u64| #[trigger] cp.image.value(k2, t2) == source.value(k2, t2),
        forall|k2: Seq<u8>, t2: u64| #[trigger] opened.value(k2, t2) == cp.image.value(k2, t2),
    ensures
        opened.value(k, t) == source.value(k, t),
{
    assert(cp.image.value(k, t) == source.value(k, t));
}

/// Logs holding the same records give every key the same reference value.
pub proof fn lemma_ref_same(h1: Seq<Record>, h2: Seq<Record>, k: Seq<u8>, n: nat)
    requires
        same_all(h1, h2),
        n <= h1.len(),
    ensures
        ref_value(h1, k, n) == ref_value(h2, k, n),
    decreases n,
{
    if n > 0 {
        lemma_ref_same(h1, h2, k, (n - 1) as nat);
        assert(crate::model::same(h1[n - 1], h2[n - 1]));
    }
}

/// The write-ahead log of every reachable state is the encoding of the
/// write history, numbered 1, 2, ... in order: exactly what recovery
/// accepts.
pub proof fn lemma_wal_journals_log(db: DB)
    requires
        db.wf(),
    ensures
        enc_log(db.log()) == db.wal@,
        forall|i: int| 0 <= i < db.log().len() ==> (#[trigger] db.log()[i]).seq == i + 1,
{
}

/// Durability: a store recovered from another's write-ahead log (holding
/// the same write history) reads every key as the source store did at its
/// newest write.
pub proof fn lemma_durability(db: DB, recovered: DB, k: Seq<u8>)
    requires
        db.wf(),
        recovered.wf(),
        same_all(recovered.log(), db.log()),
    ensures
        recovered.last_sequence() == db.last_sequence(),
        recovered.value(k, recovered.last_sequence()) == db.value(k, db.last_sequence()),
{
    lemma_ref_same(recovered.log(), db.log(), k, db.last_sequence() as nat);
}

/// The manifest of every reachable state, replayed from an empty store,
/// rebuilds exactly the live files with their levels.
pub proof fn lemma_manifest_rebuilds_version(db: DB)
    requires
        db.wf(),
    ensures
        crate::manifest::replay(db.manifest@) == crate::manifest::files_set(db.files@),
{
}

} // verus!
