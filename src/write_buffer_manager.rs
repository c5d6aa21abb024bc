//! Accounting of memtable memory shared by several stores under one limit.
use vstd::prelude::*;

verus! {

/// Tracks memtable memory against a limit and says when to flush or stall.
pub struct WriteBufferManager {
    /// The memory limit in bytes; 0 disables the limit.
    pub buffer_size: usize,
    /// Whether writers stall once usage reaches the limit.
    pub allow_stall: bool,
    /// Bytes held by all memtables, mutable or being flushed.
    pub memory_used: usize,
    /// Bytes held by mutable memtables.
    pub mutable_used: usize,
}

impl WriteBufferManager {
    pub open spec fn wf(&self) -> bool {
        self.mutable_used <= self.memory_used
    }

    /// A manager limiting memtables to `buffer_size` bytes.
    pub fn new_write_buffer_manager(buffer_size: usize, allow_stall: bool) -> (r: WriteBufferManager)
        ensures
            r.wf(),
            r.buffer_size == buffer_size,
            r.allow_stall == allow_stall,
            r.memory_used == 0,
            r.mutable_used == 0,
    {
        WriteBufferManager { buffer_size, allow_stall, memory_used: 0, mutable_used: 0 }
    }

    /// Bytes held by all memtables.
    pub fn get_usage(&self) -> (r: usize)
        ensures
            r == self.memory_used,
    {
        self.memory_used
    }

    pub fn get_buffer_size(&self) -> (r: usize)
        ensures
            r == self.buffer_size,
    {
        self.buffer_size
    }

    pub fn set_buffer_size(&mut self, new_size: usize)
        ensures
            *final(self) == (WriteBufferManager { buffer_size: new_size, ..*old(self) }),
    {
        self.buffer_size = new_size;
    }

    /// Whether a limit is set.
    pub fn enabled(&self) -> (r: bool)
        ensures
            r == (self.buffer_size > 0),
    {
        self.buffer_size > 0
    }

    pub fn set_allow_stall(&mut self, allow_stall: bool)
        ensures
            *final(self) == (WriteBufferManager { allow_stall, ..*old(self) }),
    {
        self.allow_stall = allow_stall;
    }

    /// Charges `n` bytes to a mutable memtable (saturating).
    pub fn reserve_mem(&mut self, n: usize)
        requires
            old(self).wf(),
        ensures
            final(self).wf(),
            final(self).buffer_size == old(self).buffer_size,
            final(self).allow_stall == old(self).allow_stall,
            final(self).memory_used == if old(self).memory_used + n > usize::MAX { usize::MAX as int } else { old(self).memory_used + n },
            final(self).mutable_used == if old(self).mutable_used + n > final(self).memory_used { final(self).memory_used as int } else { old(self).mutable_used + n },
    {
        self.memory_used = if self.memory_used > usize::MAX - n { usize::MAX } else { self.memory_used + n };
        let m = if self.mutable_used > usize::MAX - n { usize::MAX } else { self.mutable_used + n };
        self.mutable_used = if m > self.memory_used { self.memory_used } else { m };
    }

    /// A memtable of `n` bytes was frozen for flushing: it no longer counts
    /// as mutable.
    pub fn schedule_free_mem(&mut self, n: usize)
        requires
            old(self).wf(),
        ensures
            final(self).wf(),
            final(self).memory_used == old(self).memory_used,
            final(self).mutable_used == if old(self).mutable_used >= n { old(self).mutable_used - n } else { 0 },
            final(self).buffer_size == old(self).buffer_size,
            final(self).allow_stall == old(self).allow_stall,
    {
        self.mutable_used = if self.mutable_used >= n { self.mutable_used - n } else { 0 };
    }

    /// A flushed memtable of `n` bytes was released.
    pub fn free_mem(&mut self, n: usize)
        requires
            old(self).wf(),
        ensures
            final(self).wf(),
            final(self).memory_used == if old(self).memory_used >= n { old(self).memory_used - n } else { 0 },
            final(self).mutable_used == if old(self).mutable_used <= final(self).memory_used { old(self).mutable_used as int } else { final(self).memory_used as int },
            final(self).buffer_size == old(self).buffer_size,
            final(self).allow_stall == old(self).allow_stall,
    {
        self.memory_used = if self.memory_used >= n { self.memory_used - n } else { 0 };
        if self.mutable_used > self.memory_used {
            self.mutable_used = self.memory_used;
        }
    }

    /// A flush is due when mutable memtables exceed seven eighths of the
    /// limit, or when total usage reaches the limit while mutable memtables
    /// hold at least half of it.
    pub fn should_flush(&self) -> (r: bool)
        ensures
            r == (self.buffer_size > 0 && (self.mutable_used * 8 > self.buffer_size * 7 || (self.memory_used
                >= self.buffer_size && self.mutable_used * 2 >= self.buffer_size))),
    {
        if self.buffer_size == 0 {
            return false;
        }
        let m = self.mutable_used as u128;
        let b = self.buffer_size as u128;
        m * 8 > b * 7 || (self.memory_used >= self.buffer_size && m * 2 >= b)
    }

    /// Writers stall when stalling is allowed, a limit is set and usage has
    /// reached it.
    pub fn should_stall(&self) -> (r: bool)
        ensures
            r == (self.allow_stall && self.buffer_size > 0 && self.memory_used >= self.buffer_size),
    {
        self.allow_stall && self.buffer_size > 0 && self.memory_used >= self.buffer_size
    }
}

} // verus!
