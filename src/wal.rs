//! The write-ahead log format: each record is its kind code, its sequence
//! number, then its key and its operand, each preceded by its length; the
//! integers are eight bytes, least significant first.
use vstd::prelude::*;
use crate::error::Error;
use crate::model::same;
use crate::types::{EntryType, Record};

verus! {

/// The eight little-endian bytes of `n`.
pub open spec fn le64(n: u64) -> Seq<u8> {
    seq![
        n as u8,
        (n >> 8u64) as u8,
        (n >> 16u64) as u8,
        (n >> 24u64) as u8,
        (n >> 32u64) as u8,
        (n >> 40u64) as u8,
        (n >> 48u64) as u8,
        (n >> 56u64) as u8,
    ]
}

/// The integer whose little-endian bytes are `b0 .. b7`.
pub open spec fn from_le(b0: u8, b1: u8, b2: u8, b3: u8, b4: u8, b5: u8, b6: u8, b7: u8) -> u64 {
    (b0 as u64) | ((b1 as u64) << 8u64) | ((b2 as u64) << 16u64) | ((b3 as u64) << 24u64) | ((b4 as u64)
        << 32u64) | ((b5 as u64) << 40u64) | ((b6 as u64) << 48u64) | ((b7 as u64) << 56u64)
}

proof fn lemma_le64_of_from_le(b0: u8, b1: u8, b2: u8, b3: u8, b4: u8, b5: u8, b6: u8, b7: u8)
    ensures
        le64(from_le(b0, b1, b2, b3, b4, b5, b6, b7)) == seq![b0, b1, b2, b3, b4, b5, b6, b7],
{
    let n = from_le(b0, b1, b2, b3, b4, b5, b6, b7);
    assert(n as u8 == b0 && (n >> 8u64) as u8 == b1 && (n >> 16u64) as u8 == b2 && (n >> 24u64) as u8 == b3
        && (n >> 32u64) as u8 == b4 && (n >> 40u64) as u8 == b5 && (n >> 48u64) as u8 == b6 && (n >> 56u64) as u8
        == b7) by (bit_vector)
        requires
            n == (b0 as u64) | ((b1 as u64) << 8u64) | ((b2 as u64) << 16u64) | ((b3 as u64) << 24u64) | ((b4 as u64)
                << 32u64) | ((b5 as u64) << 40u64) | ((b6 as u64) << 48u64) | ((b7 as u64) << 56u64),
    ;
    assert(le64(n) =~= seq![b0, b1, b2, b3, b4, b5, b6, b7]);
}

proof fn lemma_le64_injective(a: u64, b: u64)
    requires
        le64(a) == le64(b),
    ensures
        a == b,
{
    assert(le64(a)[0] == le64(b)[0] && le64(a)[1] == le64(b)[1] && le64(a)[2] == le64(b)[2] && le64(a)[3] == le64(b)[3]);
    assert(le64(a)[4] == le64(b)[4] && le64(a)[5] == le64(b)[5] && le64(a)[6] == le64(b)[6] && le64(a)[7] == le64(b)[7]);
    assert(a == b) by (bit_vector)
        requires
            a as u8 == b as u8,
            (a >> 8u64) as u8 == (b >> 8u64) as u8,
            (a >> 16u64) as u8 == (b >> 16u64) as u8,
            (a >> 24u64) as u8 == (b >> 24u64) as u8,
            (a >> 32u64) as u8 == (b >> 32u64) as u8,
            (a >> 40u64) as u8 == (b >> 40u64) as u8,
            (a >> 48u64) as u8 == (b >> 48u64) as u8,
            (a >> 56u64) as u8 == (b >> 56u64) as u8,
    ;
}

/// The byte that stands for each kind.
pub open spec fn kind_code(k: EntryType) -> u8 {
    match k {
        EntryType::EntryPut => 0,
        EntryType::EntryDelete => 1,
        EntryType::EntrySingleDelete => 2,
        EntryType::EntryMerge => 3,
        EntryType::EntryRangeDeletion => 4,
        EntryType::EntryBlobIndex => 5,
        EntryType::EntryDeleteWithTimestamp => 6,
        EntryType::EntryWideColumnEntity => 7,
        EntryType::EntryTimedPut => 8,
        EntryType::EntryOther => 9,
    }
}

/// The bytes of one record.
pub open spec fn enc_record(r: Record) -> Seq<u8> {
    seq![kind_code(r.kind)] + le64(r.seq) + le64(r.key@.len() as u64) + r.key@ + le64(r.value@.len() as u64)
        + r.value@
}

/// The bytes of a sequence of records, first to last.
pub open spec fn enc_log(rs: Seq<Record>) -> Seq<u8>
    decreases rs.len(),
{
    if rs.len() == 0 {
        Seq::empty()
    } else {
        enc_record(rs[0]) + enc_log(rs.drop_first())
    }
}

/// `a` and `b` hold the same records, position by position.
pub open spec fn same_all(a: Seq<Record>, b: Seq<Record>) -> bool {
    a.len() == b.len() && forall|i: int| 0 <= i < a.len() ==> same(#[trigger] a[i], b[i])
}

pub proof fn lemma_enc_push(s: Seq<Record>, x: Record)
    ensures
        enc_log(s.push(x)) == enc_log(s) + enc_record(x),
    decreases s.len(),
{
    if s.len() == 0 {
        assert(s.push(x).drop_first() =~= Seq::<Record>::empty());
        assert(enc_log(Seq::<Record>::empty()) == Seq::<u8>::empty());
        assert(s.push(x)[0] == x);
        assert(enc_log(s.push(x)) =~= enc_record(x));
    } else {
        lemma_enc_push(s.drop_first(), x);
        assert(s.push(x).drop_first() =~= s.drop_first().push(x));
        assert(s.push(x)[0] == s[0]);
        assert(enc_log(s.push(x)) =~= enc_log(s) + enc_record(x));
    }
}

proof fn lemma_enc_skip(xs: Seq<Record>, m: int)
    requires
        0 <= m < xs.len(),
    ensures
        enc_log(xs.skip(m)) == enc_record(xs[m]) + enc_log(xs.skip(m + 1)),
{
    assert(xs.skip(m).drop_first() =~= xs.skip(m + 1));
}

pub proof fn lemma_enc_same(a: Seq<Record>, b: Seq<Record>)
    requires
        same_all(a, b),
    ensures
        enc_log(a) == enc_log(b),
    decreases a.len(),
{
    if a.len() > 0 {
        assert(same_all(a.drop_first(), b.drop_first())) by {
            assert forall|i: int| 0 <= i < a.drop_first().len() implies same(#[trigger] a.drop_first()[i], b.drop_first()[i]) by {
                assert(same(a[i + 1], b[i + 1]));
            }
        }
        lemma_enc_same(a.drop_first(), b.drop_first());
        assert(same(a[0], b[0]));
        assert(enc_record(a[0]) == enc_record(b[0]));
    }
}

fn put_u64(out: &mut Vec<u8>, n: u64)
    ensures
        final(out)@ == old(out)@ + le64(n),
{
    out.push(n as u8);
    out.push((n >> 8u64) as u8);
    out.push((n >> 16u64) as u8);
    out.push((n >> 24u64) as u8);
    out.push((n >> 32u64) as u8);
    out.push((n >> 40u64) as u8);
    out.push((n >> 48u64) as u8);
    out.push((n >> 56u64) as u8);
    assert(final(out)@ =~= old(out)@ + le64(n));
}

fn put_bytes(out: &mut Vec<u8>, b: &Vec<u8>)
    ensures
        final(out)@ == old(out)@ + b@,
{
    let mut i: usize = 0;
    while i < b.len()
        invariant
            0 <= i <= b.len(),
            out@ == old(out)@ + b@.subrange(0, i as int),
        decreases b.len() - i,
    {
        out.push(b[i]);
        i = i + 1;
    }
    assert(b@.subrange(0, i as int) =~= b@);
}

fn code_of(k: EntryType) -> (r: u8)
    ensures
        r == kind_code(k),
{
    match k {
        EntryType::EntryPut => 0,
        EntryType::EntryDelete => 1,
        EntryType::EntrySingleDelete => 2,
        EntryType::EntryMerge => 3,
        EntryType::EntryRangeDeletion => 4,
        EntryType::EntryBlobIndex => 5,
        EntryType::EntryDeleteWithTimestamp => 6,
        EntryType::EntryWideColumnEntity => 7,
        EntryType::EntryTimedPut => 8,
        EntryType::EntryOther => 9,
    }
}

fn kind_of(c: u8) -> (r: Option<EntryType>)
    ensures
        match r {
            Some(k) => kind_code(k) == c,
            None => forall|k: EntryType| kind_code(k) != c,
        },
{
    match c {
        0 => Some(EntryType::EntryPut),
        1 => Some(EntryType::EntryDelete),
        2 => Some(EntryType::EntrySingleDelete),
        3 => Some(EntryType::EntryMerge),
        4 => Some(EntryType::EntryRangeDeletion),
        5 => Some(EntryType::EntryBlobIndex),
        6 => Some(EntryType::EntryDeleteWithTimestamp),
        7 => Some(EntryType::EntryWideColumnEntity),
        8 => Some(EntryType::EntryTimedPut),
        9 => Some(EntryType::EntryOther),
        _ => None,
    }
}

/// Appends the bytes of `r` to `out`.
pub fn encode_record(out: &mut Vec<u8>, r: &Record)
    ensures
        final(out)@ == old(out)@ + enc_record(*r),
{
    out.push(code_of(r.kind));
    put_u64(out, r.seq);
    put_u64(out, r.key.len() as u64);
    put_bytes(out, &r.key);
    put_u64(out, r.value.len() as u64);
    put_bytes(out, &r.value);
    assert(final(out)@ =~= old(out)@ + enc_record(*r));
}

/// The bytes of `rs`.
pub fn encode_log(rs: &Vec<Record>) -> (r: Vec<u8>)
    ensures
        r@ == enc_log(rs@),
{
    let mut out: Vec<u8> = Vec::new();
    let mut i: usize = 0;
    while i < rs.len()
        invariant
            0 <= i <= rs.len(),
            out@ == enc_log(rs@.take(i as int)),
        decreases rs.len() - i,
    {
        proof {
            lemma_enc_push(rs@.take(i as int), rs@[i as int]);
            assert(rs@.take(i as int).push(rs@[i as int]) =~= rs@.take(i + 1));
        }
        encode_record(&mut out, &rs[i]);
        i = i + 1;
    }
    assert(rs@.take(i as int) =~= rs@);
    out
}

fn get_u64(b: &Vec<u8>, p: usize) -> (r: u64)
    requires
        p + 8 <= b@.len(),
    ensures
        le64(r) == b@.subrange(p as int, p + 8),
{
    let _len = b.len();
    let r = (b[p] as u64) | ((b[p + 1] as u64) << 8u64) | ((b[p + 2] as u64) << 16u64) | ((b[p + 3] as u64)
        << 24u64) | ((b[p + 4] as u64) << 32u64) | ((b[p + 5] as u64) << 40u64) | ((b[p + 6] as u64) << 48u64)
        | ((b[p + 7] as u64) << 56u64);
    proof {
        lemma_le64_of_from_le(b[p as int], b[p + 1], b[p + 2], b[p + 3], b[p + 4], b[p + 5], b[p + 6], b[p + 7]);
        assert(b@.subrange(p as int, p + 8) =~= seq![b[p as int], b[p + 1], b[p + 2], b[p + 3], b[p + 4], b[p + 5], b[p + 6], b[p + 7]]);
    }
    r
}

fn get_bytes(b: &Vec<u8>, p: usize, n: usize) -> (r: Vec<u8>)
    requires
        p + n <= b@.len(),
    ensures
        r@ == b@.subrange(p as int, p + n),
{
    let _len = b.len();
    let mut r: Vec<u8> = Vec::new();
    let mut i: usize = 0;
    while i < n
        invariant
            p + n <= b@.len(),
            b@.len() == _len,
            0 <= i <= n,
            r@ == b@.subrange(p as int, p + i),
        decreases n - i,
    {
        r.push(b[p + i]);
        i = i + 1;
        assert(r@ =~= b@.subrange(p as int, p + i));
    }
    r
}

proof fn lemma_kind_code_injective(a: EntryType, b: EntryType)
    requires
        kind_code(a) == kind_code(b),
    ensures
        a == b,
{
}

/// Where each field of an encoded record lies.
proof fn lemma_record_fields(b: Seq<u8>, p: int, x: Record)
    requires
        0 <= p,
        p + enc_record(x).len() <= b.len(),
        enc_record(x) == b.subrange(p, p + enc_record(x).len()),
    ensures
        b[p] == kind_code(x.kind),
        b.subrange(p + 1, p + 9) == le64(x.seq),
        b.subrange(p + 9, p + 17) == le64(x.key@.len() as u64),
        b.subrange(p + 17, p + 17 + x.key@.len()) == x.key@,
        b.subrange(p + 17 + x.key@.len(), p + 25 + x.key@.len()) == le64(x.value@.len() as u64),
        b.subrange(p + 25 + x.key@.len(), p + 25 + x.key@.len() + x.value@.len()) == x.value@,
        enc_record(x).len() == 25 + x.key@.len() + x.value@.len(),
{
    let e = enc_record(x);
    let kl = x.key@.len() as int;
    let vl = x.value@.len() as int;
    assert(e.len() == 25 + kl + vl);
    assert(e[0] == kind_code(x.kind));
    assert(b.subrange(p, p + e.len())[0] == b[p]);
    assert(e.subrange(1, 9) =~= le64(x.seq));
    assert(b.subrange(p + 1, p + 9) =~= e.subrange(1, 9));
    assert(e.subrange(9, 17) =~= le64(x.key@.len() as u64));
    assert(b.subrange(p + 9, p + 17) =~= e.subrange(9, 17));
    assert(e.subrange(17, 17 + kl) =~= x.key@);
    assert(b.subrange(p + 17, p + 17 + kl) =~= e.subrange(17, 17 + kl));
    assert(e.subrange(17 + kl, 25 + kl) =~= le64(x.value@.len() as u64));
    assert(b.subrange(p + 17 + kl, p + 25 + kl) =~= e.subrange(17 + kl, 25 + kl));
    assert(e.subrange(25 + kl, 25 + kl + vl) =~= x.value@);
    assert(b.subrange(p + 25 + kl, p + 25 + kl + vl) =~= e.subrange(25 + kl, 25 + kl + vl));
}

/// Bytes laid out field by field as the encoding of `x`.
proof fn lemma_fields_record(b: Seq<u8>, p: int, x: Record)
    requires
        0 <= p,
        p + 25 + x.key@.len() + x.value@.len() <= b.len(),
        b[p] == kind_code(x.kind),
        b.subrange(p + 1, p + 9) == le64(x.seq),
        b.subrange(p + 9, p + 17) == le64(x.key@.len() as u64),
        b.subrange(p + 17, p + 17 + x.key@.len()) == x.key@,
        b.subrange(p + 17 + x.key@.len(), p + 25 + x.key@.len()) == le64(x.value@.len() as u64),
        b.subrange(p + 25 + x.key@.len(), p + 25 + x.key@.len() + x.value@.len()) == x.value@,
    ensures
        b.subrange(p, p + 25 + x.key@.len() + x.value@.len()) == enc_record(x),
{
    let kl = x.key@.len() as int;
    let vl = x.value@.len() as int;
    assert(b.subrange(p, p + 25 + kl + vl) =~= enc_record(x));
}

/// Reads the record that starts at `p`, and the position after it.
fn decode_record(b: &Vec<u8>, p: usize) -> (r: Option<(Record, usize)>)
    requires
        p <= b@.len(),
    ensures
        match r {
            Some((rec, q)) => p < q <= b@.len() && b@.subrange(p as int, q as int) == enc_record(rec),
            None => true,
        },
        forall|x: Record|
            p + (#[trigger] enc_record(x)).len() <= b@.len() && enc_record(x) == b@.subrange(
                p as int,
                p + enc_record(x).len(),
            ) ==> r is Some && same((r->0).0, x) && (r->0).1 == p + enc_record(x).len(),
{
    let n = b.len();
    if n - p < 17 {
        return None;
    }
    let kind = match kind_of(b[p]) {
        Some(k) => k,
        None => {
            proof {
                assert forall|x: Record|
                    p + (#[trigger] enc_record(x)).len() <= b@.len() && enc_record(x) == b@.subrange(p as int, p + enc_record(x).len())
                    implies false by {
                    lemma_record_fields(b@, p as int, x);
                }
            }
            return None;
        },
    };
    let seq = get_u64(b, p + 1);
    let klen = get_u64(b, p + 9);
    if klen > (n - p - 17) as u64 {
        proof {
            assert forall|x: Record|
                p + (#[trigger] enc_record(x)).len() <= b@.len() && enc_record(x) == b@.subrange(p as int, p + enc_record(x).len())
                implies false by {
                lemma_record_fields(b@, p as int, x);
                lemma_le64_injective(klen, x.key@.len() as u64);
            }
        }
        return None;
    }
    let kl = klen as usize;
    let key = get_bytes(b, p + 17, kl);
    let q1 = p + 17 + kl;
    if n - q1 < 8 {
        proof {
            assert forall|x: Record|
                p + (#[trigger] enc_record(x)).len() <= b@.len() && enc_record(x) == b@.subrange(p as int, p + enc_record(x).len())
                implies false by {
                lemma_record_fields(b@, p as int, x);
                lemma_le64_injective(klen, x.key@.len() as u64);
            }
        }
        return None;
    }
    let vlen = get_u64(b, q1);
    if vlen > (n - q1 - 8) as u64 {
        proof {
            assert forall|x: Record|
                p + (#[trigger] enc_record(x)).len() <= b@.len() && enc_record(x) == b@.subrange(p as int, p + enc_record(x).len())
                implies false by {
                lemma_record_fields(b@, p as int, x);
                lemma_le64_injective(klen, x.key@.len() as u64);
                lemma_le64_injective(vlen, x.value@.len() as u64);
            }
        }
        return None;
    }
    let vl = vlen as usize;
    let value = get_bytes(b, q1 + 8, vl);
    let q = q1 + 8 + vl;
    let rec = Record { key, seq, kind, value };
    proof {
        assert(b@.subrange(p + 1, p + 9) == le64(rec.seq));
        assert(rec.key@.len() as u64 == klen);
        assert(rec.value@.len() as u64 == vlen);
        lemma_fields_record(b@, p as int, rec);
        assert forall|x: Record|
            p + (#[trigger] enc_record(x)).len() <= b@.len() && enc_record(x) == b@.subrange(p as int, p + enc_record(x).len())
            implies same(rec, x) && q == p + enc_record(x).len() by {
            lemma_record_fields(b@, p as int, x);
            lemma_kind_code_injective(kind, x.kind);
            lemma_le64_injective(seq, x.seq);
            lemma_le64_injective(klen, x.key@.len() as u64);
            lemma_le64_injective(vlen, x.value@.len() as u64);
        }
    }
    Some((rec, q))
}

/// Reads a whole log. The result is exact: it is `Ok` precisely when the
/// bytes are the encoding of some records, and then holds those records;
/// anything else is `Corruption`.
pub fn decode_log(bytes: &Vec<u8>) -> (r: Result<Vec<Record>, Error>)
    ensures
        r is Ok ==> enc_log(r->Ok_0@) == bytes@,
        r is Err ==> r == Err::<Vec<Record>, Error>(Error::Corruption),
        forall|xs: Seq<Record>| #[trigger] enc_log(xs) == bytes@ ==> r is Ok && same_all(r->Ok_0@, xs),
{
    let n = bytes.len();
    let mut out: Vec<Record> = Vec::new();
    let mut p: usize = 0;
    proof {
        assert(bytes@.subrange(0, n as int) =~= bytes@);
        assert(bytes@.subrange(0, 0) =~= Seq::<u8>::empty());
        assert forall|xs: Seq<Record>| #[trigger] enc_log(xs) == bytes@ implies same_all(out@, xs.take(0)) && xs.skip(0) == xs by {
            assert(xs.skip(0) =~= xs);
            assert(xs.take(0) =~= Seq::<Record>::empty());
        }
    }
    while p < n
        invariant
            n == bytes@.len(),
            p <= n,
            enc_log(out@) == bytes@.subrange(0, p as int),
            forall|xs: Seq<Record>| #[trigger] enc_log(xs) == bytes@ ==> out@.len() <= xs.len() && same_all(
                out@,
                xs.take(out@.len() as int),
            ) && enc_log(xs.skip(out@.len() as int)) == bytes@.subrange(p as int, n as int),
        decreases n - p,
    {
        let ghost m = out@.len() as int;
        proof {
            assert forall|xs: Seq<Record>| #[trigger] enc_log(xs) == bytes@ implies m < xs.len() && enc_record(xs[m])
                == bytes@.subrange(p as int, p + enc_record(xs[m]).len()) && p + enc_record(xs[m]).len() <= n by {
                if m == xs.len() {
                    assert(xs.skip(m).len() == 0);
                }
                lemma_enc_skip(xs, m);
                let e = enc_record(xs[m]);
                let rest = enc_log(xs.skip(m + 1));
                assert(bytes@.subrange(p as int, n as int) == e + rest);
                assert(bytes@.subrange(p as int, p + e.len()) =~= (e + rest).subrange(0, e.len() as int));
                assert((e + rest).subrange(0, e.len() as int) =~= e);
            }
        }
        match decode_record(bytes, p) {
            None => {
                proof {
                    assert forall|xs: Seq<Record>| #[trigger] enc_log(xs) == bytes@ implies false by {
                        let x = xs[m];
                        assert(p + enc_record(x).len() <= bytes@.len());
                    }
                }
                return Err(Error::Corruption);
            },
            Some((rec, q)) => {
                let ghost before = out@;
                proof {
                    lemma_enc_push(before, rec);
                    assert(bytes@.subrange(0, q as int) =~= bytes@.subrange(0, p as int) + bytes@.subrange(p as int, q as int));
                    assert forall|xs: Seq<Record>| #[trigger] enc_log(xs) == bytes@ implies m + 1 <= xs.len() && same_all(
                        before.push(rec),
                        xs.take(m + 1),
                    ) && enc_log(xs.skip(m + 1)) == bytes@.subrange(q as int, n as int) by {
                        let x = xs[m];
                        assert(p + enc_record(x).len() <= bytes@.len());
                        assert(same(rec, x));
                        lemma_enc_skip(xs, m);
                        let e = enc_record(x);
                        let rest = enc_log(xs.skip(m + 1));
                        assert(bytes@.subrange(p as int, n as int) == e + rest);
                        assert(bytes@.subrange(q as int, n as int) =~= (e + rest).subrange(e.len() as int, (e + rest).len() as int));
                        assert((e + rest).subrange(e.len() as int, (e + rest).len() as int) =~= rest);
                        assert forall|i: int| 0 <= i < m + 1 implies same(#[trigger] before.push(rec)[i], xs.take(m + 1)[i]) by {
                            if i < m {
                                assert(same(before[i], xs.take(m)[i]));
                            }
                        }
                    }
                }
                out.push(rec);
                p = q;
            },
        }
    }
    proof {
        assert(bytes@.subrange(0, p as int) =~= bytes@);
        assert forall|xs: Seq<Record>| #[trigger] enc_log(xs) == bytes@ implies same_all(out@, xs) by {
            let m = out@.len() as int;
            if m < xs.len() {
                lemma_enc_skip(xs, m);
                assert(enc_log(xs.skip(m)).len() >= enc_record(xs[m]).len());
                assert(enc_record(xs[m]).len() >= 17);
            }
            assert(xs.take(m) =~= xs);
        }
    }
    Ok(out)
}

} // verus!
