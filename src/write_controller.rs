//! The write-stall controller: from memtable size and level-0 file count
//! to one of Normal, Delayed and Stopped.
use vstd::prelude::*;
use crate::events::DBWriteStallCondition;
use crate::options::ColumnFamilyOptions;

verus! {

/// The hard memtable cap: `write_buffer_size * max_write_buffer_number`,
/// at least one buffer.
pub open spec fn hard_cap(o: ColumnFamilyOptions) -> int {
    if o.max_write_buffer_number <= 1 {
        o.write_buffer_size as int
    } else {
        o.write_buffer_size as int * o.max_write_buffer_number as int
    }
}

/// Level 0 holding `l0_files` files has reached trigger `t`; a negative
/// trigger is switched off.
pub open spec fn l0_reached(l0_files: int, t: i32) -> bool {
    t >= 0 && l0_files >= t
}

/// Stopped when the memtable exceeds the hard cap or level 0 has reached
/// the stop trigger; Delayed when the memtable exceeds `write_buffer_size`
/// or level 0 has reached the slowdown trigger; Normal otherwise.
pub open spec fn stall_spec(mem_bytes: u64, l0_files: int, o: ColumnFamilyOptions) -> DBWriteStallCondition {
    if mem_bytes > hard_cap(o) || l0_reached(l0_files, o.level_zero_stop_writes_trigger) {
        DBWriteStallCondition::Stopped
    } else if mem_bytes > o.write_buffer_size || l0_reached(l0_files, o.level_zero_slowdown_writes_trigger) {
        DBWriteStallCondition::Delayed
    } else {
        DBWriteStallCondition::Normal
    }
}

/// Whether `l0_files` level-0 files reach trigger `t`.
pub fn level0_reached(l0_files: usize, t: i32) -> (r: bool)
    ensures
        r == l0_reached(l0_files as int, t),
{
    t >= 0 && (l0_files as u128 >= 0x8000_0000u128 || l0_files as i64 >= t as i64)
}

/// The write-stall condition for a memtable of `mem_bytes` bytes and
/// `l0_files` level-0 files.
pub fn stall_condition(mem_bytes: u64, l0_files: usize, o: &ColumnFamilyOptions) -> (r: DBWriteStallCondition)
    ensures
        r == stall_spec(mem_bytes, l0_files as int, *o),
{
    let buf = o.write_buffer_size as u128;
    let cap: u128 = if o.max_write_buffer_number <= 1 {
        buf
    } else {
        proof {
            assert(buf * (o.max_write_buffer_number as u128) <= 0xffff_ffff_ffff_ffffu128 * 0x7fff_ffffu128)
                by (nonlinear_arith)
                requires
                    buf <= 0xffff_ffff_ffff_ffffu128,
                    o.max_write_buffer_number as u128 <= 0x7fff_ffffu128,
            ;
        }
        buf * (o.max_write_buffer_number as u128)
    };
    let stop_l0 = level0_reached(l0_files, o.level_zero_stop_writes_trigger);
    let slow_l0 = level0_reached(l0_files, o.level_zero_slowdown_writes_trigger);
    if mem_bytes as u128 > cap || stop_l0 {
        DBWriteStallCondition::Stopped
    } else if mem_bytes as u128 > buf || slow_l0 {
        DBWriteStallCondition::Delayed
    } else {
        DBWriteStallCondition::Normal
    }
}

} // verus!
