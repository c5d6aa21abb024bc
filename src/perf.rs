//! Caller-owned performance counters and memory-usage statistics.
use vstd::prelude::*;
use crate::cache::Cache;
use crate::db::DB;
use crate::error::Error;

verus! {

/// How much the perf counters measure.
#[derive(Clone, Copy, Debug, PartialEq, Eq, Structural)]
pub enum PerfStatsLevel {
    /// Unknown settings
    Uninitialized,
    /// Disable perf stats
    Disable,
    /// Enables only count stats
    EnableCount,
    /// Count stats and enable time stats except for mutexes
    EnableTimeExceptForMutex,
    /// Other than time, also measure CPU time counters. Still don't measure
    /// time (neither wall time nor CPU time) for mutexes
    EnableTimeAndCPUTimeExceptForMutex,
    /// Enables count and time stats
    EnableTime,
    /// N.B must always be the last value!
    OutOfBound,
}

/// The counters a perf context keeps.
#[derive(Clone, Copy, Debug, PartialEq, Eq, Structural)]
pub enum PerfMetric {
    UserKeyComparisonCount,
    BlockCacheHitCount,
    BlockReadCount,
    GetFromMemtableCount,
    InternalKeySkippedCount,
    InternalDeleteSkippedCount,
    GetSnapshotTime,
    SeekInternalSeekTime,
}

/// Number of metrics.
pub const PERF_METRIC_COUNT: usize = 8;

/// The counter slot of each metric.
pub open spec fn metric_index(m: PerfMetric) -> int {
    match m {
        PerfMetric::UserKeyComparisonCount => 0,
        PerfMetric::BlockCacheHitCount => 1,
        PerfMetric::BlockReadCount => 2,
        PerfMetric::GetFromMemtableCount => 3,
        PerfMetric::InternalKeySkippedCount => 4,
        PerfMetric::InternalDeleteSkippedCount => 5,
        PerfMetric::GetSnapshotTime => 6,
        PerfMetric::SeekInternalSeekTime => 7,
    }
}

fn index_of(m: PerfMetric) -> (r: usize)
    ensures
        r == metric_index(m),
        r < PERF_METRIC_COUNT,
{
    match m {
        PerfMetric::UserKeyComparisonCount => 0,
        PerfMetric::BlockCacheHitCount => 1,
        PerfMetric::BlockReadCount => 2,
        PerfMetric::GetFromMemtableCount => 3,
        PerfMetric::InternalKeySkippedCount => 4,
        PerfMetric::InternalDeleteSkippedCount => 5,
        PerfMetric::GetSnapshotTime => 6,
        PerfMetric::SeekInternalSeekTime => 7,
    }
}

/// Whether `m` measures time rather than counting events.
pub open spec fn is_time_metric(m: PerfMetric) -> bool {
    m == PerfMetric::GetSnapshotTime || m == PerfMetric::SeekInternalSeekTime
}

/// Whether level `l` measures metric `m`: counts from `EnableCount` on,
/// times from `EnableTimeExceptForMutex` on.
pub open spec fn measures(l: PerfStatsLevel, m: PerfMetric) -> bool {
    match l {
        PerfStatsLevel::Uninitialized | PerfStatsLevel::Disable | PerfStatsLevel::OutOfBound => false,
        PerfStatsLevel::EnableCount => !is_time_metric(m),
        _ => true,
    }
}

/// Performance counters owned by the caller and passed to the operations
/// that update them.
pub struct PerfContext {
    pub level: PerfStatsLevel,
    pub counts: Vec<u64>,
}

impl PerfContext {
    pub open spec fn wf(&self) -> bool {
        self.counts@.len() == PERF_METRIC_COUNT
    }

    /// The value of metric `m`.
    pub open spec fn value(&self, m: PerfMetric) -> u64 {
        self.counts@[metric_index(m)]
    }

    /// A context that counts events (`EnableCount`), all counters zero.
    pub fn default() -> (r: PerfContext)
        ensures
            r.wf(),
            r.level == PerfStatsLevel::EnableCount,
            forall|m: PerfMetric| #[trigger] r.value(m) == 0,
    {
        let mut counts: Vec<u64> = Vec::new();
        let mut i: usize = 0;
        while i < PERF_METRIC_COUNT
            invariant
                0 <= i <= PERF_METRIC_COUNT,
                counts@.len() == i,
                forall|x: int| 0 <= x < i ==> counts@[x] == 0,
            decreases PERF_METRIC_COUNT - i,
        {
            counts.push(0);
            i = i + 1;
        }
        PerfContext { level: PerfStatsLevel::EnableCount, counts }
    }

    /// Sets what the context measures from now on.
    pub fn set_perf_stats(&mut self, lvl: PerfStatsLevel)
        ensures
            final(self).level == lvl,
            final(self).counts == old(self).counts,
    {
        self.level = lvl;
    }

    /// Zeroes every counter.
    pub fn reset(&mut self)
        requires
            old(self).wf(),
        ensures
            final(self).wf(),
            final(self).level == old(self).level,
            forall|m: PerfMetric| #[trigger] final(self).value(m) == 0,
    {
        let mut i: usize = 0;
        while i < self.counts.len()
            invariant
                self.counts@.len() == PERF_METRIC_COUNT,
                self.level == old(self).level,
                0 <= i <= self.counts.len(),
                forall|x: int| 0 <= x < i ==> self.counts@[x] == 0,
            decreases self.counts.len() - i,
        {
            self.counts.set(i, 0);
            i = i + 1;
        }
    }

    /// The value of metric `id`.
    pub fn metric(&self, id: PerfMetric) -> (r: u64)
        requires
            self.wf(),
        ensures
            r == self.value(id),
    {
        self.counts[index_of(id)]
    }

    /// Adds `n` to metric `id` (saturating) when the level measures it.
    pub fn record(&mut self, id: PerfMetric, n: u64)
        requires
            old(self).wf(),
        ensures
            final(self).wf(),
            final(self).level == old(self).level,
            forall|m: PerfMetric| m != id ==> #[trigger] final(self).value(m) == old(self).value(m),
            final(self).value(id) == if measures(old(self).level, id) {
                crate::sst_file_manager::sat(old(self).value(id) as int, n as int)
            } else {
                old(self).value(id)
            },
    {
        let enabled = match self.level {
            PerfStatsLevel::Uninitialized | PerfStatsLevel::Disable | PerfStatsLevel::OutOfBound => false,
            PerfStatsLevel::EnableCount => !(id == PerfMetric::GetSnapshotTime || id == PerfMetric::SeekInternalSeekTime),
            _ => true,
        };
        if enabled {
            let i = index_of(id);
            let v = self.counts[i];
            let nv = if v > u64::MAX - n { u64::MAX } else { v + n };
            self.counts.set(i, nv);
        }
    }
}

/// Memory usage stats
pub struct MemoryUsageStats {
    /// Approximate memory usage of all the mem-tables
    pub mem_table_total: u64,
    /// Approximate memory usage of un-flushed mem-tables
    pub mem_table_unflushed: u64,
    /// Approximate memory usage of all the table readers
    pub mem_table_readers_total: u64,
    /// Approximate memory usage by cache
    pub cache_total: u64,
}

/// The memory usage of a set of stores and caches.
pub struct MemoryUsage {
    pub mem_table_total: u64,
    pub mem_table_unflushed: u64,
    pub mem_table_readers_total: u64,
    pub cache_total: u64,
}

impl MemoryUsage {
    /// Approximate memory usage of all the mem-tables
    pub fn approximate_mem_table_total(&self) -> (r: u64)
        ensures
            r == self.mem_table_total,
    {
        self.mem_table_total
    }

    /// Approximate memory usage of un-flushed mem-tables
    pub fn approximate_mem_table_unflushed(&self) -> (r: u64)
        ensures
            r == self.mem_table_unflushed,
    {
        self.mem_table_unflushed
    }

    /// Approximate memory usage of all the table readers
    pub fn approximate_mem_table_readers_total(&self) -> (r: u64)
        ensures
            r == self.mem_table_readers_total,
    {
        self.mem_table_readers_total
    }

    /// Approximate memory usage by cache
    pub fn approximate_cache_total(&self) -> (r: u64)
        ensures
            r == self.cache_total,
    {
        self.cache_total
    }
}

/// Sums the memory usage of the stores and caches added to it.
pub struct MemoryUsageBuilder {
    pub mem_tables: u64,
    pub table_readers: u64,
    pub caches: u64,
}

/// Memtable bytes of the first `n` stores, summed with saturation.
pub open spec fn sum_mem(dbs: Seq<&DB>, n: nat) -> u64
    decreases n,
{
    if n == 0 || n > dbs.len() {
        0
    } else {
        crate::sst_file_manager::sat(sum_mem(dbs, (n - 1) as nat) as int, dbs[n - 1].mem_bytes as int)
    }
}

/// Table bytes of the first `n` stores, summed with saturation.
pub open spec fn sum_tables(dbs: Seq<&DB>, n: nat) -> u64
    decreases n,
{
    if n == 0 || n > dbs.len() {
        0
    } else {
        crate::sst_file_manager::sat(sum_tables(dbs, (n - 1) as nat) as int, dbs[n - 1].table_bytes() as int)
    }
}

/// An earlier cache among the first `n` has the id of cache `n`.
pub open spec fn seen_before(caches: Seq<&Cache>, n: int) -> bool {
    exists|j: int| 0 <= j < n && (#[trigger] caches[j]).id == caches[n].id
}

/// Cache usage of the first `n` caches, summed with saturation, each id
/// counted once (at its first occurrence).
pub open spec fn sum_caches(caches: Seq<&Cache>, n: nat) -> u64
    decreases n,
{
    if n == 0 || n > caches.len() {
        0
    } else if seen_before(caches, n - 1) {
        sum_caches(caches, (n - 1) as nat)
    } else {
        crate::sst_file_manager::sat(sum_caches(caches, (n - 1) as nat) as int, caches[n - 1].usage as int)
    }
}

fn is_seen(caches: &[&Cache], n: usize) -> (r: bool)
    requires
        n < caches@.len(),
    ensures
        r == seen_before(caches@, n as int),
{
    let mut j: usize = 0;
    while j < n
        invariant
            n < caches@.len(),
            0 <= j <= n,
            forall|x: int| 0 <= x < j ==> (#[trigger] caches@[x]).id != caches@[n as int].id,
        decreases n - j,
    {
        if caches[j].id == caches[n].id {
            return true;
        }
        j = j + 1;
    }
    false
}

fn sat_add(a: u64, b: u64) -> (r: u64)
    ensures
        r == crate::sst_file_manager::sat(a as int, b as int),
{
    if a > u64::MAX - b {
        u64::MAX
    } else {
        a + b
    }
}

impl MemoryUsageBuilder {
    /// An empty builder.
    pub fn new() -> (r: Result<MemoryUsageBuilder, Error>)
        ensures
            r is Ok,
            r->Ok_0.mem_tables == 0 && r->Ok_0.table_readers == 0 && r->Ok_0.caches == 0,
    {
        Ok(MemoryUsageBuilder { mem_tables: 0, table_readers: 0, caches: 0 })
    }

    /// Adds a store's memtable and table bytes.
    pub fn add_db(&mut self, db: &DB)
        ensures
            final(self).mem_tables == crate::sst_file_manager::sat(old(self).mem_tables as int, db.mem_bytes as int),
            final(self).table_readers == crate::sst_file_manager::sat(old(self).table_readers as int, db.table_bytes() as int),
            final(self).caches == old(self).caches,
    {
        self.mem_tables = sat_add(self.mem_tables, db.mem_bytes);
        let t = db.approximate_table_bytes();
        self.table_readers = sat_add(self.table_readers, t);
    }

    /// Adds a cache's usage.
    pub fn add_cache(&mut self, cache: &Cache)
        ensures
            final(self).caches == crate::sst_file_manager::sat(old(self).caches as int, cache.usage as int),
            final(self).mem_tables == old(self).mem_tables,
            final(self).table_readers == old(self).table_readers,
    {
        self.caches = sat_add(self.caches, cache.usage as u64);
    }

    /// The totals gathered so far. Every memtable of this store is unflushed
    /// until its flush, so both memtable totals agree.
    pub fn build(&self) -> (r: Result<MemoryUsage, Error>)
        ensures
            r is Ok,
            r->Ok_0.mem_table_total == self.mem_tables,
            r->Ok_0.mem_table_unflushed == self.mem_tables,
            r->Ok_0.mem_table_readers_total == self.table_readers,
            r->Ok_0.cache_total == self.caches,
    {
        Ok(MemoryUsage {
            mem_table_total: self.mem_tables,
            mem_table_unflushed: self.mem_tables,
            mem_table_readers_total: self.table_readers,
            cache_total: self.caches,
        })
    }
}

/// Get memory usage stats from DB instances and Cache instances; caches
/// that share an id are one cache and count once.
pub fn get_memory_usage_stats(dbs: Option<&[&DB]>, caches: Option<&[&Cache]>) -> (r: Result<MemoryUsageStats, Error>)
    ensures
        r is Ok,
        r->Ok_0.mem_table_total == match dbs { Some(d) => sum_mem(d@, d@.len()), None => 0 },
        r->Ok_0.mem_table_unflushed == r->Ok_0.mem_table_total,
        r->Ok_0.mem_table_readers_total == match dbs { Some(d) => sum_tables(d@, d@.len()), None => 0 },
        r->Ok_0.cache_total == match caches { Some(c) => sum_caches(c@, c@.len()), None => 0 },
{
    let mut builder = match MemoryUsageBuilder::new() {
        Ok(b) => b,
        Err(e) => return Err(e),
    };
    if let Some(dbs_) = dbs {
        let mut i: usize = 0;
        while i < dbs_.len()
            invariant
                0 <= i <= dbs_@.len(),
                builder.mem_tables == sum_mem(dbs_@, i as nat),
                builder.table_readers == sum_tables(dbs_@, i as nat),
                builder.caches == 0,
            decreases dbs_@.len() - i,
        {
            builder.add_db(dbs_[i]);
            i = i + 1;
        }
    }
    if let Some(caches_) = caches {
        let mut i: usize = 0;
        while i < caches_.len()
            invariant
                0 <= i <= caches_@.len(),
                builder.mem_tables == match dbs { Some(d) => sum_mem(d@, d@.len()), None => 0 },
                builder.table_readers == match dbs { Some(d) => sum_tables(d@, d@.len()), None => 0 },
                builder.caches == sum_caches(caches_@, i as nat),
            decreases caches_@.len() - i,
        {
            if !is_seen(caches_, i) {
                builder.add_cache(caches_[i]);
            }
            i = i + 1;
        }
    }
    let mu = match builder.build() {
        Ok(m) => m,
        Err(e) => return Err(e),
    };
    Ok(MemoryUsageStats {
        mem_table_total: mu.approximate_mem_table_total(),
        mem_table_unflushed: mu.approximate_mem_table_unflushed(),
        mem_table_readers_total: mu.approximate_mem_table_readers_total(),
        cache_total: mu.approximate_cache_total(),
    })
}

} // verus!
