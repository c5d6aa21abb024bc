//! The manifest: the log of version edits (table files removed and added)
//! from which the set of live files is rebuilt.
use vstd::prelude::*;
use crate::db::SstFile;

verus! {

/// One change of the set of live files.
pub struct VersionEdit {
    /// Numbers of the files that leave.
    pub removed: Vec<u64>,
    /// Number and level of each file that joins.
    pub added: Vec<(u64, usize)>,
}

/// The live files as (number, level) pairs.
pub open spec fn files_set(files: Seq<SstFile>) -> Set<(u64, usize)> {
    Set::new(|p: (u64, usize)| exists|i: int| 0 <= i < files.len() && (#[trigger] files[i]).id == p.0 && files[i].level == p.1)
}

/// `s` after edit `e`: the removed numbers leave, the added files join.
pub open spec fn apply_edit(s: Set<(u64, usize)>, e: VersionEdit) -> Set<(u64, usize)> {
    Set::new(|p: (u64, usize)| (s.contains(p) && !e.removed@.contains(p.0)) || e.added@.contains(p))
}

/// The live files after replaying `edits` from an empty store.
pub open spec fn replay(edits: Seq<VersionEdit>) -> Set<(u64, usize)>
    decreases edits.len(),
{
    if edits.len() == 0 {
        Set::empty()
    } else {
        apply_edit(replay(edits.drop_last()), edits.last())
    }
}

/// One edit that adds every file of `files`: a full snapshot of the version.
pub fn snapshot_edit(files: &Vec<SstFile>) -> (e: VersionEdit)
    ensures
        e.removed@.len() == 0,
        forall|p: (u64, usize)| e.added@.contains(p) <==> files_set(files@).contains(p),
{
    let mut added: Vec<(u64, usize)> = Vec::new();
    let mut i: usize = 0;
    while i < files.len()
        invariant
            0 <= i <= files.len(),
            added@.len() == i,
            forall|x: int| 0 <= x < i ==> #[trigger] added@[x] == (files@[x].id, files@[x].level),
        decreases files.len() - i,
    {
        added.push((files[i].id, files[i].level));
        i = i + 1;
    }
    let e = VersionEdit { removed: Vec::new(), added };
    proof {
        assert forall|p: (u64, usize)| e.added@.contains(p) <==> files_set(files@).contains(p) by {
            if e.added@.contains(p) {
                let x = choose|x: int| 0 <= x < e.added@.len() && e.added@[x] == p;
                assert(added@[x] == (files@[x].id, files@[x].level));
            }
            if files_set(files@).contains(p) {
                let x = choose|x: int| 0 <= x < files@.len() && (#[trigger] files@[x]).id == p.0 && files@[x].level == p.1;
                assert(added@[x] == p);
            }
        }
    }
    e
}

/// Replaying a log made of one snapshot edit gives that snapshot.
pub proof fn lemma_replay_snapshot(edits: Seq<VersionEdit>, files: Seq<SstFile>)
    requires
        edits.len() == 1,
        edits.last().removed@.len() == 0,
        forall|p: (u64, usize)| edits.last().added@.contains(p) <==> files_set(files).contains(p),
    ensures
        replay(edits) == files_set(files),
{
    assert(replay(edits.drop_last()) == Set::<(u64, usize)>::empty());
    assert(replay(edits) =~= files_set(files));
}

} // verus!
