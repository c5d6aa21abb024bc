//! Per-column-family tuning: memtable size, level-0 triggers and level
//! targets.
use vstd::prelude::*;

verus! {

/// Size and trigger settings of one column family.
#[derive(Clone, Copy, Debug, PartialEq, Eq, Structural)]
pub struct ColumnFamilyOptions {
    /// Bytes a memtable may hold before it should be flushed; also the
    /// soft memtable threshold of the write-stall controller.
    pub write_buffer_size: usize,
    /// Number of memtables' worth of data that may be buffered; the hard
    /// memtable cap is `write_buffer_size * max_write_buffer_number`.
    pub max_write_buffer_number: i32,
    pub level_zero_file_num_compaction_trigger: i32,
    pub level_zero_slowdown_writes_trigger: i32,
    pub level_zero_stop_writes_trigger: i32,
    pub num_levels: i32,
    pub max_bytes_for_level_base: u64,
    /// Growth factor of the size target from one level to the next.
    pub max_bytes_for_level_multiplier: u64,
    pub max_compaction_bytes: u64,
    pub disable_auto_compactions: bool,
}

impl ColumnFamilyOptions {
    /// The customary defaults: 64 MiB memtables, two of them, level-0
    /// triggers 4 / 20 / 36, seven levels, a 256 MiB base growing tenfold.
    pub fn default() -> (r: ColumnFamilyOptions)
        ensures
            r.write_buffer_size == 64 * 1024 * 1024,
            r.max_write_buffer_number == 2,
            r.level_zero_file_num_compaction_trigger == 4,
            r.level_zero_slowdown_writes_trigger == 20,
            r.level_zero_stop_writes_trigger == 36,
            r.num_levels == 7,
            r.max_bytes_for_level_base == 256 * 1024 * 1024,
            r.max_bytes_for_level_multiplier == 10,
            r.max_compaction_bytes == 25 * 64 * 1024 * 1024,
            !r.disable_auto_compactions,
    {
        ColumnFamilyOptions {
            write_buffer_size: 64 * 1024 * 1024,
            max_write_buffer_number: 2,
            level_zero_file_num_compaction_trigger: 4,
            level_zero_slowdown_writes_trigger: 20,
            level_zero_stop_writes_trigger: 36,
            num_levels: 7,
            max_bytes_for_level_base: 256 * 1024 * 1024,
            max_bytes_for_level_multiplier: 10,
            max_compaction_bytes: 25 * 64 * 1024 * 1024,
            disable_auto_compactions: false,
        }
    }

    pub fn set_write_buffer_size(&mut self, size: usize)
        ensures
            *final(self) == (ColumnFamilyOptions { write_buffer_size: size, ..*old(self) }),
    {
        self.write_buffer_size = size;
    }

    pub fn set_max_write_buffer_number(&mut self, nbuf: i32)
        ensures
            *final(self) == (ColumnFamilyOptions { max_write_buffer_number: nbuf, ..*old(self) }),
    {
        self.max_write_buffer_number = nbuf;
    }

    pub fn set_level_zero_file_num_compaction_trigger(&mut self, n: i32)
        ensures
            *final(self) == (ColumnFamilyOptions { level_zero_file_num_compaction_trigger: n, ..*old(self) }),
    {
        self.level_zero_file_num_compaction_trigger = n;
    }

    pub fn set_level_zero_slowdown_writes_trigger(&mut self, n: i32)
        ensures
            *final(self) == (ColumnFamilyOptions { level_zero_slowdown_writes_trigger: n, ..*old(self) }),
    {
        self.level_zero_slowdown_writes_trigger = n;
    }

    pub fn set_level_zero_stop_writes_trigger(&mut self, n: i32)
        ensures
            *final(self) == (ColumnFamilyOptions { level_zero_stop_writes_trigger: n, ..*old(self) }),
    {
        self.level_zero_stop_writes_trigger = n;
    }

    pub fn set_num_levels(&mut self, n: i32)
        ensures
            *final(self) == (ColumnFamilyOptions { num_levels: n, ..*old(self) }),
    {
        self.num_levels = n;
    }

    pub fn set_max_bytes_for_level_base(&mut self, size: u64)
        ensures
            *final(self) == (ColumnFamilyOptions { max_bytes_for_level_base: size, ..*old(self) }),
    {
        self.max_bytes_for_level_base = size;
    }

    pub fn set_max_bytes_for_level_multiplier(&mut self, mul: u64)
        ensures
            *final(self) == (ColumnFamilyOptions { max_bytes_for_level_multiplier: mul, ..*old(self) }),
    {
        self.max_bytes_for_level_multiplier = mul;
    }

    pub fn set_max_compaction_bytes(&mut self, nbytes: u64)
        ensures
            *final(self) == (ColumnFamilyOptions { max_compaction_bytes: nbytes, ..*old(self) }),
    {
        self.max_compaction_bytes = nbytes;
    }

    pub fn set_disable_auto_compactions(&mut self, disable: bool)
        ensures
            *final(self) == (ColumnFamilyOptions { disable_auto_compactions: disable, ..*old(self) }),
    {
        self.disable_auto_compactions = disable;
    }
}

} // verus!
