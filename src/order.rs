//! The order of internal keys: user keys byte-wise ascending, and for one
//! user key the newest sequence number first.
use vstd::prelude::*;
use crate::model::{Runs, at, same, in_runs, covered};
use crate::types::Record;

verus! {

/// Byte-wise lexicographic order of byte strings, strict.
pub open spec fn bytes_lt(a: Seq<u8>, b: Seq<u8>) -> bool
    decreases a.len(),
{
    if b.len() == 0 {
        false
    } else if a.len() == 0 {
        true
    } else if a[0] != b[0] {
        a[0] < b[0]
    } else {
        bytes_lt(a.drop_first(), b.drop_first())
    }
}

pub proof fn lemma_bytes_lt_irreflexive(a: Seq<u8>)
    ensures
        !bytes_lt(a, a),
    decreases a.len(),
{
    if a.len() > 0 {
        lemma_bytes_lt_irreflexive(a.drop_first());
    }
}

pub proof fn lemma_bytes_lt_transitive(a: Seq<u8>, b: Seq<u8>, c: Seq<u8>)
    requires
        bytes_lt(a, b),
        bytes_lt(b, c),
    ensures
        bytes_lt(a, c),
    decreases a.len(),
{
    if a.len() > 0 && b.len() > 0 && c.len() > 0 && a[0] == b[0] && b[0] == c[0] {
        lemma_bytes_lt_transitive(a.drop_first(), b.drop_first(), c.drop_first());
    }
}

pub proof fn lemma_bytes_lt_total(a: Seq<u8>, b: Seq<u8>)
    ensures
        bytes_lt(a, b) || bytes_lt(b, a) || a == b,
    decreases a.len(),
{
    if a.len() > 0 && b.len() > 0 && a[0] == b[0] {
        lemma_bytes_lt_total(a.drop_first(), b.drop_first());
        if a.drop_first() == b.drop_first() {
            assert(a =~= seq![a[0]] + a.drop_first());
            assert(b =~= seq![b[0]] + b.drop_first());
        }
    } else if a.len() == 0 && b.len() == 0 {
        assert(a =~= b);
    }
}

proof fn lemma_bytes_lt_skip(a: Seq<u8>, b: Seq<u8>, i: int)
    requires
        0 <= i <= a.len(),
        i <= b.len(),
        forall|j: int| 0 <= j < i ==> a[j] == b[j],
    ensures
        bytes_lt(a, b) == bytes_lt(a.skip(i), b.skip(i)),
    decreases i,
{
    if i > 0 {
        lemma_bytes_lt_skip(a.drop_first(), b.drop_first(), i - 1);
        assert(a.drop_first().skip(i - 1) =~= a.skip(i));
        assert(b.drop_first().skip(i - 1) =~= b.skip(i));
    } else {
        assert(a.skip(0) =~= a);
        assert(b.skip(0) =~= b);
    }
}

/// Compares two byte strings: negative, zero or positive as `a` sorts
/// before, equal to or after `b`.
pub fn compare_bytes(a: &Vec<u8>, b: &Vec<u8>) -> (r: i8)
    ensures
        (r < 0) == bytes_lt(a@, b@),
        (r == 0) == (a@ == b@),
        (r > 0) == bytes_lt(b@, a@),
{
    let mut i: usize = 0;
    while i < a.len() && i < b.len()
        invariant
            0 <= i <= a.len(),
            i <= b.len(),
            forall|j: int| 0 <= j < i ==> a@[j] == b@[j],
        decreases a.len() - i,
    {
        if a[i] != b[i] {
            proof {
                lemma_bytes_lt_skip(a@, b@, i as int);
                lemma_bytes_lt_skip(b@, a@, i as int);
                assert(a@.skip(i as int)[0] == a@[i as int]);
                assert(b@.skip(i as int)[0] == b@[i as int]);
                assert(a@ != b@) by {
                    assert(a@[i as int] != b@[i as int]);
                }
            }
            if a[i] < b[i] {
                return -1;
            } else {
                return 1;
            }
        }
        i = i + 1;
    }
    proof {
        lemma_bytes_lt_skip(a@, b@, i as int);
        lemma_bytes_lt_skip(b@, a@, i as int);
    }
    if a.len() == b.len() {
        assert(a@ =~= b@);
        proof {
            lemma_bytes_lt_irreflexive(a@);
        }
        0
    } else if a.len() < b.len() {
        assert(a@.skip(i as int).len() == 0);
        -1
    } else {
        assert(b@.skip(i as int).len() == 0);
        1
    }
}

/// `a` sorts strictly before `b` as internal keys.
pub open spec fn ikey_lt(a: Record, b: Record) -> bool {
    bytes_lt(a.key@, b.key@) || (a.key@ == b.key@ && a.seq > b.seq)
}

/// `a` sorts before `b`, or has the same user key and sequence number.
pub open spec fn ikey_le(a: Record, b: Record) -> bool {
    ikey_lt(a, b) || (a.key@ == b.key@ && a.seq == b.seq)
}

/// Records in internal-key order.
pub open spec fn sorted(s: Seq<Record>) -> bool {
    forall|i: int, j: int| 0 <= i < j < s.len() ==> ikey_le(#[trigger] s[i], #[trigger] s[j])
}

proof fn lemma_ikey_trans(a: Record, b: Record, c: Record)
    requires
        ikey_le(a, b),
        ikey_le(b, c),
    ensures
        ikey_le(a, c),
        ikey_lt(a, b) || ikey_lt(b, c) ==> ikey_lt(a, c),
{
    if bytes_lt(a.key@, b.key@) && bytes_lt(b.key@, c.key@) {
        lemma_bytes_lt_transitive(a.key@, b.key@, c.key@);
    }
}

proof fn lemma_ikey_total(a: Record, b: Record)
    ensures
        ikey_lt(a, b) || ikey_le(b, a),
{
    lemma_bytes_lt_total(a.key@, b.key@);
}

/// Whether `a` sorts strictly before `b` as internal keys.
pub fn ikey_less(a: &Record, b: &Record) -> (r: bool)
    ensures
        r == ikey_lt(*a, *b),
{
    let c = compare_bytes(&a.key, &b.key);
    c < 0 || (c == 0 && a.seq > b.seq)
}

/// Copies with equal keys and sequence numbers keep the order.
pub proof fn lemma_sorted_same(a: Seq<Record>, b: Seq<Record>)
    requires
        sorted(a),
        a.len() == b.len(),
        forall|i: int| 0 <= i < a.len() ==> same(#[trigger] a[i], b[i]),
    ensures
        sorted(b),
{
    assert forall|i: int, j: int| 0 <= i < j < b.len() implies ikey_le(#[trigger] b[i], #[trigger] b[j]) by {
        assert(same(a[i], b[i]) && same(a[j], b[j]));
        assert(ikey_le(a[i], a[j]));
    }
}

/// The position of a least record of `v` in internal-key order.
fn least(v: &Vec<Record>) -> (m: usize)
    requires
        v@.len() > 0,
    ensures
        m < v@.len(),
        forall|j: int| 0 <= j < v@.len() ==> ikey_le(v@[m as int], #[trigger] v@[j]),
{
    let mut m: usize = 0;
    let mut i: usize = 1;
    proof {
        assert(ikey_le(v@[0], v@[0]));
    }
    while i < v.len()
        invariant
            1 <= i <= v@.len(),
            m < i,
            forall|j: int| 0 <= j < i ==> ikey_le(v@[m as int], #[trigger] v@[j]),
        decreases v.len() - i,
    {
        if ikey_less(&v[i], &v[m]) {
            proof {
                assert forall|j: int| 0 <= j <= i implies ikey_le(v@[i as int], #[trigger] v@[j]) by {
                    if j < i {
                        lemma_ikey_trans(v@[i as int], v@[m as int], v@[j]);
                    }
                }
            }
            m = i;
        } else {
            proof {
                lemma_ikey_total(v@[i as int], v@[m as int]);
            }
        }
        i = i + 1;
    }
    m
}

/// Two runs: `a`, then `b`.
pub open spec fn pair(a: Seq<Record>, b: Seq<Record>) -> Runs {
    seq![a, b]
}

/// Every record covered by `b` is covered by `c` as well.
pub proof fn lemma_covered_trans(a: Runs, b: Runs, c: Runs)
    requires
        covered(a, b),
        covered(b, c),
    ensures
        covered(a, c),
{
    assert forall|i: int, j: int| at(a, i, j) implies in_runs(c, #[trigger] a[i][j]) by {
        assert(in_runs(b, a[i][j]));
        let (x, y) = choose|x: int, y: int| at(b, x, y) && same(#[trigger] b[x][y], a[i][j]);
        assert(in_runs(c, b[x][y]));
        let (u, w) = choose|u: int, w: int| at(c, u, w) && same(#[trigger] c[u][w], b[x][y]);
    }
}

proof fn lemma_move(o1: Seq<Record>, r1: Seq<Record>, m: int)
    requires
        0 <= m < r1.len(),
    ensures
        covered(pair(o1.push(r1[m]), r1.remove(m)), pair(o1, r1)),
        covered(pair(o1, r1), pair(o1.push(r1[m]), r1.remove(m))),
{
    let before = pair(o1, r1);
    let after = pair(o1.push(r1[m]), r1.remove(m));
    assert forall|i: int, j: int| at(after, i, j) implies in_runs(before, #[trigger] after[i][j]) by {
        if i == 0 {
            if j < o1.len() {
                assert(after[i][j] == before[0][j] && at(before, 0, j));
            } else {
                assert(after[i][j] == before[1][m] && at(before, 1, m));
            }
        } else {
            let j1 = if j < m { j } else { j + 1 };
            assert(after[i][j] == before[1][j1] && at(before, 1, j1));
        }
    }
    assert forall|i: int, j: int| at(before, i, j) implies in_runs(after, #[trigger] before[i][j]) by {
        if i == 0 {
            assert(after[0][j] == before[0][j] && at(after, 0, j));
        } else if j == m {
            assert(after[0][o1.len() as int] == before[1][j] && at(after, 0, o1.len() as int));
        } else {
            let j2 = if j < m { j } else { j - 1 };
            assert(after[1][j2] == before[1][j] && at(after, 1, j2));
        }
    }
}

proof fn lemma_order_step(o1: Seq<Record>, r1: Seq<Record>, m: int)
    requires
        0 <= m < r1.len(),
        sorted(o1),
        forall|i: int, j: int| 0 <= i < o1.len() && 0 <= j < r1.len() ==> ikey_le(#[trigger] o1[i], #[trigger] r1[j]),
        forall|j: int| 0 <= j < r1.len() ==> ikey_le(r1[m], #[trigger] r1[j]),
    ensures
        sorted(o1.push(r1[m])),
        forall|i: int, j: int|
            0 <= i < o1.push(r1[m]).len() && 0 <= j < r1.remove(m).len() ==> ikey_le(
                #[trigger] o1.push(r1[m])[i],
                #[trigger] r1.remove(m)[j],
            ),
{
    let o2 = o1.push(r1[m]);
    let r2 = r1.remove(m);
    assert forall|i: int, j: int| 0 <= i < j < o2.len() implies ikey_le(#[trigger] o2[i], #[trigger] o2[j]) by {
        if j < o1.len() {
            assert(o2[i] == o1[i] && o2[j] == o1[j]);
        } else {
            assert(o2[i] == o1[i]);
            assert(ikey_le(o1[i], r1[m]));
        }
    }
    assert forall|i: int, j: int| 0 <= i < o2.len() && 0 <= j < r2.len() implies ikey_le(#[trigger] o2[i], #[trigger] r2[j]) by {
        let j1 = if j < m { j } else { j + 1 };
        assert(r2[j] == r1[j1]);
        if i < o1.len() {
            assert(o2[i] == o1[i]);
        } else {
            assert(o2[i] == r1[m]);
        }
    }
}

proof fn lemma_pair_single(a: Seq<Record>, b: Seq<Record>)
    requires
        a.len() == 0 || b.len() == 0,
    ensures
        covered(pair(a, b), seq![a + b]),
        covered(seq![a + b], pair(a, b)),
{
    let p = pair(a, b);
    let s1 = seq![a + b];
    assert forall|i: int, j: int| at(p, i, j) implies in_runs(s1, #[trigger] p[i][j]) by {
        if i == 0 {
            assert(s1[0][j] == p[i][j] && at(s1, 0, j));
        } else {
            assert(s1[0][a.len() + j] == p[i][j] && at(s1, 0, a.len() + j));
        }
    }
    assert forall|i: int, j: int| at(s1, i, j) implies in_runs(p, #[trigger] s1[i][j]) by {
        if j < a.len() {
            assert(p[0][j] == s1[i][j] && at(p, 0, j));
        } else {
            assert(p[1][j - a.len()] == s1[i][j] && at(p, 1, j - a.len()));
        }
    }
}

/// The records of `v` in internal-key order.
pub fn sort_records(v: Vec<Record>) -> (r: Vec<Record>)
    ensures
        sorted(r@),
        r@.len() == v@.len(),
        covered(seq![r@], seq![v@]),
        covered(seq![v@], seq![r@]),
{
    let ghost orig = seq![v@];
    let mut rem = v;
    let mut out: Vec<Record> = Vec::new();
    proof {
        lemma_pair_single(out@, rem@);
        assert(out@ + rem@ =~= rem@);
    }
    while rem.len() > 0
        invariant
            sorted(out@),
            out@.len() + rem@.len() == orig[0].len(),
            forall|i: int, j: int| 0 <= i < out@.len() && 0 <= j < rem@.len() ==> ikey_le(#[trigger] out@[i], #[trigger] rem@[j]),
            covered(orig, pair(out@, rem@)),
            covered(pair(out@, rem@), orig),
        decreases rem@.len(),
    {
        let ghost o1 = out@;
        let ghost r1 = rem@;
        let m = least(&rem);
        let x = rem.remove(m);
        out.push(x);
        proof {
            assert(out@ == o1.push(r1[m as int]));
            assert(rem@ == r1.remove(m as int));
            lemma_order_step(o1, r1, m as int);
            lemma_move(o1, r1, m as int);
            lemma_covered_trans(orig, pair(o1, r1), pair(out@, rem@));
            lemma_covered_trans(pair(out@, rem@), pair(o1, r1), orig);
        }
    }
    proof {
        lemma_pair_single(out@, rem@);
        assert(out@ + rem@ =~= out@);
        lemma_covered_trans(seq![out@], pair(out@, rem@), orig);
        lemma_covered_trans(orig, pair(out@, rem@), seq![out@]);
    }
    out
}

} // verus!
