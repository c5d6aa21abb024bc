//! Properties gathered while a table file is built: entry counts by kind
//! and raw sizes, plus the interface of user-supplied collectors.
use vstd::prelude::*;
use crate::db::SstFile;
use crate::sst_file_manager::sat;
use crate::types::{EntryType, Record};

verus! {

/// Where a table file is being built.
#[derive(Clone, Copy, Debug, PartialEq, Eq, Structural)]
pub struct TablePropertiesCollectorContext {
    pub column_family_id: u32,
    pub level_at_creation: i32,
    pub num_levels: i32,
    pub last_level_inclusive_max_seqno_threshold: u64,
}

/// A collector's refusal of an entry. It carries no detail: only the fact
/// of failure is used.
#[derive(Clone, Copy, Debug, PartialEq, Eq, Structural)]
pub struct CollectorError {
    pub code: u8,
}

/// Counts and sizes of a table file's entries.
#[derive(Clone, Copy, Debug, PartialEq, Eq, Structural)]
pub struct TableProperties {
    pub num_entries: u64,
    pub num_deletions: u64,
    pub num_merge_operands: u64,
    pub raw_key_size: u64,
    pub raw_value_size: u64,
}

/// The properties of `rs`, every count and size saturating.
pub open spec fn props_of(rs: Seq<Record>) -> TableProperties
    decreases rs.len(),
{
    if rs.len() == 0 {
        TableProperties { num_entries: 0, num_deletions: 0, num_merge_operands: 0, raw_key_size: 0, raw_value_size: 0 }
    } else {
        let p = props_of(rs.drop_last());
        let r = rs.last();
        let del = r.kind == EntryType::EntryDelete || r.kind == EntryType::EntrySingleDelete;
        TableProperties {
            num_entries: sat(p.num_entries as int, 1),
            num_deletions: if del { sat(p.num_deletions as int, 1) } else { p.num_deletions },
            num_merge_operands: if r.kind == EntryType::EntryMerge { sat(p.num_merge_operands as int, 1) } else { p.num_merge_operands },
            raw_key_size: sat(p.raw_key_size as int, r.key@.len() as int),
            raw_value_size: sat(p.raw_value_size as int, r.value@.len() as int),
        }
    }
}

fn inc(a: u64, b: u64) -> (r: u64)
    ensures
        r == sat(a as int, b as int),
{
    if a > u64::MAX - b {
        u64::MAX
    } else {
        a + b
    }
}

/// The properties of a sequence of records.
pub fn table_properties(rs: &Vec<Record>) -> (r: TableProperties)
    ensures
        r == props_of(rs@),
{
    let mut p = TableProperties { num_entries: 0, num_deletions: 0, num_merge_operands: 0, raw_key_size: 0, raw_value_size: 0 };
    let mut i: usize = 0;
    while i < rs.len()
        invariant
            0 <= i <= rs.len(),
            p == props_of(rs@.take(i as int)),
        decreases rs.len() - i,
    {
        assert(rs@.take(i + 1).drop_last() =~= rs@.take(i as int));
        let r = &rs[i];
        let del = match r.kind {
            EntryType::EntryDelete | EntryType::EntrySingleDelete => true,
            _ => false,
        };
        let merge = match r.kind {
            EntryType::EntryMerge => true,
            _ => false,
        };
        p = TableProperties {
            num_entries: inc(p.num_entries, 1),
            num_deletions: if del { inc(p.num_deletions, 1) } else { p.num_deletions },
            num_merge_operands: if merge { inc(p.num_merge_operands, 1) } else { p.num_merge_operands },
            raw_key_size: inc(p.raw_key_size, r.key.len() as u64),
            raw_value_size: inc(p.raw_value_size, r.value.len() as u64),
        };
        i = i + 1;
    }
    assert(rs@.take(i as int) =~= rs@);
    p
}

impl SstFile {
    /// The properties of this file's records.
    pub fn properties(&self) -> (r: TableProperties)
        ensures
            r == props_of(self.records@),
    {
        table_properties(&self.records)
    }
}

/// A user-supplied collector, called once per entry of a file being built.
pub trait TablePropertiesCollector {
    /// Called when a new key/value pair is added to the table; an `Err` is
    /// counted, and building goes on.
    fn add_user_key(
        &mut self,
        key: &[u8],
        value: &[u8],
        entry_type: EntryType,
        seq: u64,
        file_size: u64,
    ) -> Result<(), CollectorError>;
}

/// Hands every entry of `file` to `collector`, in order, with the bytes
/// written so far; returns how many entries it refused.
pub fn collect_file<C: TablePropertiesCollector>(collector: &mut C, file: &SstFile) -> (errors: u64)
    ensures
        errors <= file.records@.len(),
{
    let mut errors: u64 = 0;
    let mut written: u64 = 0;
    let mut i: usize = 0;
    while i < file.records.len()
        invariant
            0 <= i <= file.records.len(),
            errors <= i,
        decreases file.records.len() - i,
    {
        let r = &file.records[i];
        if collector.add_user_key(r.key.as_slice(), r.value.as_slice(), r.kind, r.seq, written).is_err() {
            errors = errors + 1;
        }
        written = inc(written, inc(r.key.len() as u64, r.value.len() as u64));
        i = i + 1;
    }
    errors
}

} // verus!
