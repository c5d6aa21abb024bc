//! Accounting of the space taken by table files, with an optional limit
//! and rate-limited deletion through a trash area.
use vstd::prelude::*;

verus! {

/// Tracks table-file space against a limit.
pub struct SstFileManager {
    /// Bytes of live table files.
    pub total_size: u64,
    /// The space limit in bytes; 0 means unlimited.
    pub max_allowed_space: u64,
    /// Bytes reserved for compactions in progress.
    pub compaction_buffer_size: u64,
    /// Bytes of compaction output being written.
    pub in_progress_compaction_size: u64,
    /// Deletion rate in bytes per second; 0 or less deletes at once.
    pub delete_rate_bytes_per_second: i64,
    /// Bytes of deleted files waiting in the trash.
    pub total_trash_size: u64,
}

/// `a + b`, saturating at `u64::MAX`.
pub open spec fn sat(a: int, b: int) -> u64 {
    if a + b > u64::MAX {
        u64::MAX
    } else {
        (a + b) as u64
    }
}

fn sat_add(a: u64, b: u64) -> (r: u64)
    ensures
        r == sat(a as int, b as int),
{
    if a > u64::MAX - b {
        u64::MAX
    } else {
        a + b
    }
}

impl SstFileManager {
    /// A manager with no limit and immediate deletion.
    pub fn new() -> (r: SstFileManager)
        ensures
            r.total_size == 0,
            r.max_allowed_space == 0,
            r.compaction_buffer_size == 0,
            r.in_progress_compaction_size == 0,
            r.delete_rate_bytes_per_second == 0,
            r.total_trash_size == 0,
    {
        SstFileManager {
            total_size: 0,
            max_allowed_space: 0,
            compaction_buffer_size: 0,
            in_progress_compaction_size: 0,
            delete_rate_bytes_per_second: 0,
            total_trash_size: 0,
        }
    }

    pub fn set_max_allowed_space_usage(&mut self, bytes: u64)
        ensures
            *final(self) == (SstFileManager { max_allowed_space: bytes, ..*old(self) }),
    {
        self.max_allowed_space = bytes;
    }

    pub fn set_compaction_buffer_size(&mut self, bytes: u64)
        ensures
            *final(self) == (SstFileManager { compaction_buffer_size: bytes, ..*old(self) }),
    {
        self.compaction_buffer_size = bytes;
    }

    /// A limit is set and live files reach it.
    pub fn is_max_allowed_space_reached(&self) -> (r: bool)
        ensures
            r == (self.max_allowed_space > 0 && self.total_size >= self.max_allowed_space),
    {
        self.max_allowed_space > 0 && self.total_size >= self.max_allowed_space
    }

    /// A limit is set and live files, together with the compaction reserve
    /// and the output of compactions in progress, reach it.
    pub fn is_max_allowed_space_reached_including_compactions(&self) -> (r: bool)
        ensures
            r == (self.max_allowed_space > 0 && self.total_size + self.compaction_buffer_size
                + self.in_progress_compaction_size >= self.max_allowed_space),
    {
        if self.max_allowed_space == 0 {
            return false;
        }
        let used = self.total_size as u128 + self.compaction_buffer_size as u128
            + self.in_progress_compaction_size as u128;
        used >= self.max_allowed_space as u128
    }

    pub fn get_total_size(&self) -> (r: u64)
        ensures
            r == self.total_size,
    {
        self.total_size
    }

    pub fn get_delete_rate_bytes_per_second(&self) -> (r: i64)
        ensures
            r == self.delete_rate_bytes_per_second,
    {
        self.delete_rate_bytes_per_second
    }

    pub fn set_delete_rate_bytes_per_second(&mut self, rate: i64)
        ensures
            *final(self) == (SstFileManager { delete_rate_bytes_per_second: rate, ..*old(self) }),
    {
        self.delete_rate_bytes_per_second = rate;
    }

    pub fn get_total_trash_size(&self) -> (r: u64)
        ensures
            r == self.total_trash_size,
    {
        self.total_trash_size
    }

    /// A table file of `size` bytes was written.
    pub fn on_add_file(&mut self, size: u64)
        ensures
            *final(self) == (SstFileManager { total_size: sat(old(self).total_size as int, size as int), ..*old(self) }),
    {
        self.total_size = sat_add(self.total_size, size);
    }

    /// A table file of `size` bytes was deleted. With a positive deletion
    /// rate its bytes move to the trash, to be purged at that rate.
    pub fn on_delete_file(&mut self, size: u64)
        ensures
            final(self).total_size == if old(self).total_size >= size { old(self).total_size - size } else { 0 },
            final(self).total_trash_size == if old(self).delete_rate_bytes_per_second > 0 {
                sat(old(self).total_trash_size as int, size as int)
            } else {
                old(self).total_trash_size
            },
            final(self).max_allowed_space == old(self).max_allowed_space,
            final(self).delete_rate_bytes_per_second == old(self).delete_rate_bytes_per_second,
    {
        self.total_size = if self.total_size >= size { self.total_size - size } else { 0 };
        if self.delete_rate_bytes_per_second > 0 {
            self.total_trash_size = sat_add(self.total_trash_size, size);
        }
    }

    /// Purges the trash for `seconds` seconds at the deletion rate; returns
    /// the bytes purged.
    pub fn purge_trash(&mut self, seconds: u64) -> (r: u64)
        ensures
            r == if old(self).delete_rate_bytes_per_second <= 0 {
                old(self).total_trash_size as int
            } else if old(self).delete_rate_bytes_per_second as int * seconds as int >= old(self).total_trash_size {
                old(self).total_trash_size as int
            } else {
                old(self).delete_rate_bytes_per_second as int * seconds as int
            },
            final(self).total_trash_size == old(self).total_trash_size - r,
            final(self).total_size == old(self).total_size,
    {
        let budget: u128 = if self.delete_rate_bytes_per_second <= 0 {
            self.total_trash_size as u128
        } else {
            proof {
                assert((self.delete_rate_bytes_per_second as u128) * (seconds as u128) <= 0x7fff_ffff_ffff_ffffu128 * 0xffff_ffff_ffff_ffffu128)
                    by (nonlinear_arith)
                    requires
                        self.delete_rate_bytes_per_second as u128 <= 0x7fff_ffff_ffff_ffffu128,
                        seconds as u128 <= 0xffff_ffff_ffff_ffffu128,
                ;
            }
            self.delete_rate_bytes_per_second as u128 * seconds as u128
        };
        let purged: u64 = if budget >= self.total_trash_size as u128 {
            self.total_trash_size
        } else {
            budget as u64
        };
        self.total_trash_size = self.total_trash_size - purged;
        purged
    }
}

} // verus!
