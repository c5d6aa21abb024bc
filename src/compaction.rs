//! Compaction: merging the files of two adjacent levels into one output
//! file, dropping the records that no live horizon can observe.
use vstd::prelude::*;
use crate::types::{EntryType, Record, bytes_eq};
use crate::model::{Runs, at, same, in_runs, covered, shadowed, lemma_in_covered};
use crate::order::{sorted, sort_records, lemma_covered_trans};

verus! {

/// One run holding exactly `v`.
pub open spec fn single(v: Seq<Record>) -> Runs {
    seq![v]
}

/// Copies of `v`'s records, in order.
pub fn dup_records(v: &Vec<Record>) -> (r: Vec<Record>)
    ensures
        r@.len() == v@.len(),
        forall|j: int| 0 <= j < v@.len() ==> same(#[trigger] r@[j], v@[j]),
{
    let mut r: Vec<Record> = Vec::with_capacity(v.len());
    let mut j: usize = 0;
    while j < v.len()
        invariant
            0 <= j <= v.len(),
            r@.len() == j,
            forall|x: int| 0 <= x < j ==> same(#[trigger] r@[x], v@[x]),
        decreases v.len() - j,
    {
        r.push(v[j].duplicate());
        j = j + 1;
    }
    r
}

fn is_barrier_kind(k: EntryType) -> (r: bool)
    ensures
        r == k.is_barrier(),
{
    match k {
        EntryType::EntryPut | EntryType::EntryDelete | EntryType::EntrySingleDelete => true,
        _ => false,
    }
}

/// Whether `inputs[p]` is superseded, from horizon `m` on, by a Put or a
/// Delete of its key among `inputs`.
pub fn is_obsolete(inputs: &Vec<Record>, p: usize, m: u64) -> (r: bool)
    requires
        p < inputs@.len(),
    ensures
        r == shadowed(single(inputs@), inputs@[p as int], m),
{
    let ghost rs = single(inputs@);
    let mut q: usize = 0;
    while q < inputs.len()
        invariant
            rs == single(inputs@),
            p < inputs@.len(),
            0 <= q <= inputs.len(),
            forall|j: int|
                0 <= j < q ==> !((#[trigger] inputs@[j]).key@ == inputs@[p as int].key@ && inputs@[p as int].seq
                    < inputs@[j].seq <= m && inputs@[j].kind.is_barrier()),
        decreases inputs.len() - q,
    {
        let c = &inputs[q];
        if inputs[p].seq < c.seq && c.seq <= m && is_barrier_kind(c.kind) && bytes_eq(&c.key, &inputs[p].key) {
            proof {
                assert(at(rs, 0, q as int) && rs[0][q as int] == inputs@[q as int]);
            }
            return true;
        }
        q = q + 1;
    }
    proof {
        if shadowed(rs, inputs@[p as int], m) {
            let (i, j) = choose|i: int, j: int|
                at(rs, i, j) && (#[trigger] rs[i][j]).key@ == inputs@[p as int].key@ && inputs@[p as int].seq
                    < rs[i][j].seq <= m && rs[i][j].kind.is_barrier();
            assert(i == 0);
            assert(rs[i][j] == inputs@[j]);
        }
    }
    false
}

/// The records of `inputs` that some horizon from `m` on can still observe.
pub fn drop_obsolete(inputs: &Vec<Record>, m: u64) -> (out: Vec<Record>)
    ensures
        covered(single(out@), single(inputs@)),
        forall|p: int|
            0 <= p < inputs@.len() ==> (in_runs(single(out@), #[trigger] inputs@[p]) <==> !shadowed(
                single(inputs@),
                inputs@[p],
                m,
            )),
{
    let ghost ins = single(inputs@);
    let mut out: Vec<Record> = Vec::new();
    let mut p: usize = 0;
    while p < inputs.len()
        invariant
            ins == single(inputs@),
            0 <= p <= inputs.len(),
            covered(single(out@), ins),
            forall|x: int|
                0 <= x < p ==> in_runs(single(out@), #[trigger] inputs@[x]) || shadowed(ins, inputs@[x], m),
            forall|j: int| 0 <= j < out@.len() ==> !shadowed(ins, #[trigger] out@[j], m),
        decreases inputs.len() - p,
    {
        if !is_obsolete(inputs, p, m) {
            let ghost before = single(out@);
            let d = inputs[p].duplicate();
            out.push(d);
            proof {
                let after = single(out@);
                assert forall|i: int, j: int| at(after, i, j) implies in_runs(ins, #[trigger] after[i][j]) by {
                    if j < before[0].len() {
                        assert(after[i][j] == before[i][j]);
                        assert(at(before, i, j));
                    } else {
                        assert(at(ins, 0, p as int) && same(ins[0][p as int], after[i][j]));
                    }
                }
                assert forall|x: int| 0 <= x <= p implies in_runs(after, #[trigger] inputs@[x]) || shadowed(ins, inputs@[x], m) by {
                    if x < p {
                        if in_runs(before, inputs@[x]) {
                            let (i, j) = choose|i: int, j: int| at(before, i, j) && same(#[trigger] before[i][j], inputs@[x]);
                            assert(after[i][j] == before[i][j]);
                        }
                    } else {
                        let j = before[0].len() as int;
                        assert(at(after, 0, j) && same(after[0][j], inputs@[x]));
                    }
                }
            }
        }
        p = p + 1;
    }
    proof {
        assert forall|x: int| 0 <= x < inputs@.len() && in_runs(single(out@), #[trigger] inputs@[x]) implies !shadowed(ins, inputs@[x], m) by {
            let (i, j) = choose|i: int, j: int| at(single(out@), i, j) && same(#[trigger] single(out@)[i][j], inputs@[x]);
            assert(single(out@)[i][j] == out@[j]);
            assert(!shadowed(ins, out@[j], m));
        }
    }
    out
}

/// The records of `inputs` that some horizon from `m` on can still
/// observe, in internal-key order.
pub fn compact_records(inputs: &Vec<Record>, m: u64) -> (out: Vec<Record>)
    ensures
        sorted(out@),
        covered(single(out@), single(inputs@)),
        forall|p: int|
            0 <= p < inputs@.len() ==> (in_runs(single(out@), #[trigger] inputs@[p]) <==> !shadowed(
                single(inputs@),
                inputs@[p],
                m,
            )),
{
    let kept = drop_obsolete(inputs, m);
    let ghost kv = kept@;
    let out = sort_records(kept);
    proof {
        assert(single(kv) == seq![kv]);
        assert(single(out@) == seq![out@]);
        lemma_covered_trans(single(out@), single(kv), single(inputs@));
        assert forall|p: int| 0 <= p < inputs@.len() implies (in_runs(single(out@), #[trigger] inputs@[p]) <==> !shadowed(
            single(inputs@), inputs@[p], m)) by {
            if in_runs(single(kv), inputs@[p]) {
                lemma_in_covered(single(kv), single(out@), inputs@[p]);
            }
            if in_runs(single(out@), inputs@[p]) {
                lemma_in_covered(single(out@), single(kv), inputs@[p]);
            }
        }
    }
    out
}

} // verus!
