//! Entry kinds, stored records and byte-string helpers.
use vstd::prelude::*;

verus! {

/// The operation tag carried by every stored record.
#[derive(Clone, Copy, Debug, PartialEq, Eq, Structural)]
pub enum EntryType {
    EntryPut,
    EntryDelete,
    EntrySingleDelete,
    EntryMerge,
    EntryRangeDeletion,
    EntryBlobIndex,
    EntryDeleteWithTimestamp,
    EntryWideColumnEntity,
    EntryTimedPut,
    EntryOther,
}

impl EntryType {
    /// Whether a record of this kind replaces everything older for its key.
    pub open spec fn is_barrier(self) -> bool {
        self == EntryType::EntryPut || self == EntryType::EntryDelete
            || self == EntryType::EntrySingleDelete
    }
}

/// One versioned entry: a user key, the sequence number of the write that
/// produced it, its operation tag and its operand.
#[derive(Debug)]
pub struct Record {
    pub key: Vec<u8>,
    pub seq: u64,
    pub kind: EntryType,
    pub value: Vec<u8>,
}

/// Copies a byte string.
pub fn copy_bytes(b: &Vec<u8>) -> (r: Vec<u8>)
    ensures
        r@ == b@,
{
    let mut r: Vec<u8> = Vec::with_capacity(b.len());
    let mut i: usize = 0;
    while i < b.len()
        invariant
            0 <= i <= b.len(),
            r@ == b@.subrange(0, i as int),
        decreases b.len() - i,
    {
        r.push(b[i]);
        i = i + 1;
    }
    assert(r@ =~= b@);
    r
}

/// Byte-wise equality of two byte strings.
pub fn bytes_eq(a: &Vec<u8>, b: &Vec<u8>) -> (r: bool)
    ensures
        r == (a@ == b@),
{
    if a.len() != b.len() {
        return false;
    }
    let mut i: usize = 0;
    while i < a.len()
        invariant
            0 <= i <= a.len(),
            a.len() == b.len(),
            forall|j: int| 0 <= j < i ==> a@[j] == b@[j],
        decreases a.len() - i,
    {
        if a[i] != b[i] {
            return false;
        }
        i = i + 1;
    }
    assert(a@ =~= b@);
    true
}

/// `a` followed by `b`.
pub fn concat_bytes(a: &Vec<u8>, b: &Vec<u8>) -> (r: Vec<u8>)
    ensures
        r@ == a@ + b@,
{
    let mut r = copy_bytes(a);
    let mut i: usize = 0;
    while i < b.len()
        invariant
            0 <= i <= b.len(),
            r@ == a@ + b@.subrange(0, i as int),
        decreases b.len() - i,
    {
        r.push(b[i]);
        i = i + 1;
    }
    assert(r@ =~= a@ + b@);
    r
}

impl Record {
    /// A copy of this record.
    pub fn duplicate(&self) -> (r: Record)
        ensures
            r.key@ == self.key@,
            r.seq == self.seq,
            r.kind == self.kind,
            r.value@ == self.value@,
    {
        Record {
            key: copy_bytes(&self.key),
            seq: self.seq,
            kind: self.kind,
            value: copy_bytes(&self.value),
        }
    }
}

} // verus!
