//! A fixed-capacity block cache keyed by (file number, block offset), with
//! least-recently-used eviction of unpinned entries.
use vstd::prelude::*;
use crate::types::copy_bytes;

verus! {

/// One cached block.
pub struct CacheEntry {
    pub file_id: u64,
    pub offset: u64,
    pub block: Vec<u8>,
    /// Holds by live readers; a pinned entry is never evicted.
    pub pins: u64,
    /// Logical time of the last use.
    pub last_use: u64,
}

/// Bytes an entry is charged: the size of its block.
pub open spec fn total_charge(s: Seq<CacheEntry>) -> nat
    decreases s.len(),
{
    if s.len() == 0 {
        0
    } else {
        total_charge(s.drop_last()) + s.last().block@.len()
    }
}

/// Bytes charged to the pinned entries of `s`.
pub open spec fn pinned_charge(s: Seq<CacheEntry>) -> nat
    decreases s.len(),
{
    if s.len() == 0 {
        0
    } else {
        pinned_charge(s.drop_last()) + if s.last().pins > 0 {
            s.last().block@.len()
        } else {
            0
        }
    }
}

proof fn lemma_charge_push(s: Seq<CacheEntry>, e: CacheEntry)
    ensures
        total_charge(s.push(e)) == total_charge(s) + e.block@.len(),
        pinned_charge(s.push(e)) == pinned_charge(s) + if e.pins > 0 { e.block@.len() } else { 0 },
{
    assert(s.push(e).drop_last() =~= s);
}

proof fn lemma_charge_remove(s: Seq<CacheEntry>, i: int)
    requires
        0 <= i < s.len(),
    ensures
        total_charge(s.remove(i)) + s[i].block@.len() == total_charge(s),
        pinned_charge(s.remove(i)) + (if s[i].pins > 0 { s[i].block@.len() } else { 0 }) == pinned_charge(s),
    decreases s.len(),
{
    if i < s.len() - 1 {
        lemma_charge_remove(s.drop_last(), i);
        assert(s.remove(i).drop_last() =~= s.drop_last().remove(i));
        assert(s.remove(i).last() == s.last());
    } else {
        assert(s.remove(i) =~= s.drop_last());
    }
}

proof fn lemma_charge_update(s: Seq<CacheEntry>, i: int, e: CacheEntry)
    requires
        0 <= i < s.len(),
        e.block@.len() == s[i].block@.len(),
    ensures
        total_charge(s.update(i, e)) == total_charge(s),
        pinned_charge(s.update(i, e)) + (if s[i].pins > 0 { s[i].block@.len() } else { 0 }) == pinned_charge(s)
            + (if e.pins > 0 { e.block@.len() } else { 0 }),
    decreases s.len(),
{
    if i < s.len() - 1 {
        lemma_charge_update(s.drop_last(), i, e);
        assert(s.update(i, e).drop_last() =~= s.drop_last().update(i, e));
    } else {
        assert(s.update(i, e).drop_last() =~= s.drop_last());
    }
}

proof fn lemma_pinned_le(s: Seq<CacheEntry>)
    ensures
        pinned_charge(s) <= total_charge(s),
        (forall|i: int| 0 <= i < s.len() ==> (#[trigger] s[i]).pins > 0) ==> pinned_charge(s) == total_charge(s),
    decreases s.len(),
{
    if s.len() > 0 {
        lemma_pinned_le(s.drop_last());
        if forall|i: int| 0 <= i < s.len() ==> (#[trigger] s[i]).pins > 0 {
            assert forall|i: int| 0 <= i < s.drop_last().len() implies (#[trigger] s.drop_last()[i]).pins > 0 by {
                assert(s.drop_last()[i] == s[i]);
            }
        }
    }
}

/// How the cache is organised.
#[derive(Clone, Copy, Debug, PartialEq, Eq, Structural)]
pub enum CacheKind {
    Lru,
    HyperClock { estimated_entry_charge: usize },
}

/// A block cache of bounded capacity.
pub struct Cache {
    /// Tells caches apart: handles with one id stand for one cache.
    pub id: u64,
    pub kind: CacheKind,
    pub capacity: usize,
    pub usage: usize,
    pub clock: u64,
    pub entries: Vec<CacheEntry>,
}

impl Cache {
    /// At most one entry per key; the usage counter is the total charge;
    /// usage stays within capacity unless only pinned entries remain.
    pub open spec fn wf(&self) -> bool {
        &&& self.wf_core()
        &&& (self.usage <= self.capacity || forall|i: int|
            0 <= i < self.entries@.len() ==> (#[trigger] self.entries@[i]).pins > 0)
    }

    /// At most one entry per key, and the usage counter is the total charge.
    pub open spec fn wf_core(&self) -> bool {
        &&& self.usage == total_charge(self.entries@)
        &&& forall|i: int, j: int|
            0 <= i < j < self.entries@.len() ==> !((#[trigger] self.entries@[i]).file_id == (
            #[trigger] self.entries@[j]).file_id && self.entries@[i].offset == self.entries@[j].offset)
    }

    /// The cached block of (`file_id`, `offset`), if present.
    pub open spec fn block_of(&self, file_id: u64, offset: u64) -> Option<Seq<u8>> {
        if exists|i: int|
            0 <= i < self.entries@.len() && (#[trigger] self.entries@[i]).file_id == file_id
                && self.entries@[i].offset == offset {
            let i = choose|i: int|
                0 <= i < self.entries@.len() && (#[trigger] self.entries@[i]).file_id == file_id
                    && self.entries@[i].offset == offset;
            Some(self.entries@[i].block@)
        } else {
            None
        }
    }

    /// The pin count of the entry of (`file_id`, `offset`); 0 when absent.
    pub open spec fn pins_of(&self, file_id: u64, offset: u64) -> u64 {
        if exists|i: int|
            0 <= i < self.entries@.len() && (#[trigger] self.entries@[i]).file_id == file_id
                && self.entries@[i].offset == offset {
            let i = choose|i: int|
                0 <= i < self.entries@.len() && (#[trigger] self.entries@[i]).file_id == file_id
                    && self.entries@[i].offset == offset;
            self.entries@[i].pins
        } else {
            0
        }
    }

    fn empty(id: u64, kind: CacheKind, capacity: usize) -> (r: Cache)
        ensures
            r.wf(),
            r.id == id,
            r.kind == kind,
            r.capacity == capacity,
            r.usage == 0,
            r.entries@.len() == 0,
    {
        Cache { id, kind, capacity, usage: 0, clock: 0, entries: Vec::new() }
    }

    /// An LRU cache of `capacity` bytes, known by `id`.
    pub fn new_lru_cache(capacity: usize, id: u64) -> (r: Cache)
        ensures
            r.wf(),
            r.id == id,
            r.kind == CacheKind::Lru,
            r.capacity == capacity,
            r.usage == 0,
            r.entries@.len() == 0,
    {
        Self::empty(id, CacheKind::Lru, capacity)
    }

    /// A clock-organised cache of `capacity` bytes; `estimated_entry_charge`
    /// sizes its table up front (0: grow as needed). Known by `id`.
    pub fn new_hyper_clock_cache(capacity: usize, estimated_entry_charge: usize, id: u64) -> (r: Cache)
        ensures
            r.wf(),
            r.id == id,
            r.kind == (CacheKind::HyperClock { estimated_entry_charge }),
            r.capacity == capacity,
            r.usage == 0,
            r.entries@.len() == 0,
    {
        Self::empty(id, CacheKind::HyperClock { estimated_entry_charge }, capacity)
    }

    /// Bytes held by cached blocks.
    pub fn get_usage(&self) -> (r: usize)
        ensures
            r == self.usage,
    {
        self.usage
    }

    /// Bytes held by pinned blocks.
    pub fn get_pinned_usage(&self) -> (r: usize)
        requires
            self.wf(),
        ensures
            r == pinned_charge(self.entries@),
    {
        let mut n: usize = 0;
        let mut i: usize = 0;
        proof {
            lemma_pinned_le(self.entries@);
        }
        while i < self.entries.len()
            invariant
                self.wf(),
                0 <= i <= self.entries.len(),
                n == pinned_charge(self.entries@.take(i as int)),
                n <= total_charge(self.entries@.take(i as int)),
                total_charge(self.entries@.take(i as int)) <= self.usage,
            decreases self.entries.len() - i,
        {
            proof {
                assert(self.entries@.take(i + 1).drop_last() =~= self.entries@.take(i as int));
                lemma_charge_prefix(self.entries@, i + 1);
            }
            if self.entries[i].pins > 0 {
                n = n + self.entries[i].block.len();
            }
            i = i + 1;
        }
        assert(self.entries@.take(i as int) =~= self.entries@);
        n
    }

    fn position(&self, file_id: u64, offset: u64) -> (r: Option<usize>)
        requires
            self.wf(),
        ensures
            match r {
                Some(i) => i < self.entries@.len() && self.entries@[i as int].file_id == file_id
                    && self.entries@[i as int].offset == offset,
                None => forall|i: int|
                    0 <= i < self.entries@.len() ==> !((#[trigger] self.entries@[i]).file_id == file_id
                        && self.entries@[i].offset == offset),
            },
    {
        let mut i: usize = 0;
        while i < self.entries.len()
            invariant
                0 <= i <= self.entries.len(),
                forall|x: int|
                    0 <= x < i ==> !((#[trigger] self.entries@[x]).file_id == file_id && self.entries@[x].offset
                        == offset),
            decreases self.entries.len() - i,
        {
            if self.entries[i].file_id == file_id && self.entries[i].offset == offset {
                return Some(i);
            }
            i = i + 1;
        }
        None
    }

    proof fn lemma_block_of(&self, file_id: u64, offset: u64, i: int)
        requires
            self.wf_core(),
            0 <= i < self.entries@.len(),
            self.entries@[i].file_id == file_id,
            self.entries@[i].offset == offset,
        ensures
            self.block_of(file_id, offset) == Some(self.entries@[i].block@),
            self.pins_of(file_id, offset) == self.entries@[i].pins,
    {
    }

    /// The block cached for (`file_id`, `offset`): a hit is always the block
    /// stored under that very key. A hit refreshes the entry's recency.
    pub fn lookup(&mut self, file_id: u64, offset: u64) -> (r: Option<Vec<u8>>)
        requires
            old(self).wf(),
        ensures
            final(self).wf(),
            crate::db::view_opt(r) == old(self).block_of(file_id, offset),
            forall|f: u64, o: u64| #[trigger] final(self).block_of(f, o) == old(self).block_of(f, o),
            final(self).usage == old(self).usage,
            final(self).capacity == old(self).capacity,
    {
        match self.position(file_id, offset) {
            None => None,
            Some(i) => {
                let ghost before = self.entries@;
                proof {
                    self.lemma_block_of(file_id, offset, i as int);
                }
                let now = if self.clock < u64::MAX { self.clock + 1 } else { self.clock };
                self.clock = now;
                let block = copy_bytes(&self.entries[i].block);
                let e = CacheEntry {
                    file_id,
                    offset,
                    block: copy_bytes(&self.entries[i].block),
                    pins: self.entries[i].pins,
                    last_use: now,
                };
                self.entries.set(i, e);
                proof {
                    lemma_charge_update(before, i as int, self.entries@[i as int]);
                    assert(self.entries@ == before.update(i as int, self.entries@[i as int]));
                    assert forall|f: u64, o: u64| #[trigger] self.block_of(f, o) == old(self).block_of(f, o) by {
                        if exists|x: int| 0 <= x < before.len() && (#[trigger] before[x]).file_id == f && before[x].offset == o {
                            let x = choose|x: int| 0 <= x < before.len() && (#[trigger] before[x]).file_id == f && before[x].offset == o;
                            old(self).lemma_block_of(f, o, x);
                            self.lemma_block_of(f, o, x);
                        } else {
                            assert forall|x: int| 0 <= x < self.entries@.len() implies !((#[trigger] self.entries@[x]).file_id == f && self.entries@[x].offset == o) by {
                                assert(self.entries@[x].file_id == before[x].file_id);
                            }
                        }
                    }
                }
                Some(block)
            },
        }
    }

    /// Evicts the least recently used unpinned entry, if there is one.
    fn evict_one(&mut self) -> (r: bool)
        requires
            old(self).wf_core(),
        ensures
            final(self).wf_core(),
            final(self).capacity == old(self).capacity,
            final(self).kind == old(self).kind,
            r ==> exists|i: int|
                0 <= i < old(self).entries@.len() && (#[trigger] old(self).entries@[i]).pins == 0
                    && final(self).entries@ == old(self).entries@.remove(i),
            r ==> final(self).entries@.len() < old(self).entries@.len(),
            !r ==> *final(self) == *old(self) && forall|i: int|
                0 <= i < old(self).entries@.len() ==> (#[trigger] old(self).entries@[i]).pins > 0,
            pinned_charge(final(self).entries@) == pinned_charge(old(self).entries@),
    {
        let mut victim: Option<usize> = None;
        let mut oldest: u64 = 0;
        let mut i: usize = 0;
        while i < self.entries.len()
            invariant
                0 <= i <= self.entries.len(),
                match victim {
                    Some(v) => v < i && self.entries@[v as int].pins == 0,
                    None => forall|x: int| 0 <= x < i ==> (#[trigger] self.entries@[x]).pins > 0,
                },
            decreases self.entries.len() - i,
        {
            let e = &self.entries[i];
            if e.pins == 0 && (victim.is_none() || e.last_use < oldest) {
                victim = Some(i);
                oldest = e.last_use;
            }
            i = i + 1;
        }
        match victim {
            None => false,
            Some(v) => {
                let ghost before = self.entries@;
                let removed = self.entries.remove(v);
                proof {
                    lemma_charge_remove(before, v as int);
                    assert forall|a: int, b: int| 0 <= a < b < self.entries@.len() implies !((#[trigger] self.entries@[a]).file_id == (#[trigger] self.entries@[b]).file_id && self.entries@[a].offset == self.entries@[b].offset) by {
                        let a2 = if a < v { a } else { a + 1 };
                        let b2 = if b < v { b } else { b + 1 };
                        assert(self.entries@[a] == before[a2] && self.entries@[b] == before[b2]);
                    }
                }
                self.usage = self.usage - removed.block.len();
                true
            },
        }
    }

    /// Evicts unpinned entries until usage is within capacity or only
    /// pinned entries remain.
    fn shrink(&mut self)
        requires
            old(self).wf_core(),
        ensures
            final(self).wf(),
            final(self).capacity == old(self).capacity,
            final(self).kind == old(self).kind,
            forall|f: u64, o: u64| #[trigger] final(self).block_of(f, o) is None || final(self).block_of(f, o) == old(self).block_of(f, o),
            forall|f: u64, o: u64| #[trigger] final(self).block_of(f, o) is Some ==> final(self).pins_of(f, o) == old(self).pins_of(f, o),
            forall|f: u64, o: u64| #[trigger] old(self).pins_of(f, o) > 0 ==> final(self).block_of(f, o) == old(self).block_of(f, o),
            pinned_charge(final(self).entries@) == pinned_charge(old(self).entries@),
    {
        let ghost start = *self;
        let mut stuck = false;
        while self.usage > self.capacity && !stuck
            invariant
                stuck ==> forall|i: int| 0 <= i < self.entries@.len() ==> (#[trigger] self.entries@[i]).pins > 0,
                self.wf_core(),
                self.capacity == start.capacity,
                self.kind == start.kind,
                forall|f: u64, o: u64| #[trigger] self.block_of(f, o) is None || self.block_of(f, o) == start.block_of(f, o),
                forall|f: u64, o: u64| #[trigger] self.block_of(f, o) is Some ==> self.pins_of(f, o) == start.pins_of(f, o),
                forall|f: u64, o: u64| #[trigger] start.pins_of(f, o) > 0 ==> self.block_of(f, o) == start.block_of(f, o),
                pinned_charge(self.entries@) == pinned_charge(start.entries@),
            decreases self.entries@.len() + if stuck { 0int } else { 1int },
        {
            let ghost before = *self;
            if !self.evict_one() {
                stuck = true;
                continue;
            }
            proof {
                let i = choose|i: int| 0 <= i < before.entries@.len() && (#[trigger] before.entries@[i]).pins == 0
                    && self.entries@ == before.entries@.remove(i);
                lemma_block_of_remove(before, *self, i);
                let ev = before.entries@[i];
                before.lemma_block_of(ev.file_id, ev.offset, i);
                assert forall|f: u64, o: u64| #[trigger] self.block_of(f, o) is None || self.block_of(f, o) == start.block_of(f, o) by {
                    assert(before.block_of(f, o) is None || before.block_of(f, o) == start.block_of(f, o));
                }
                assert forall|f: u64, o: u64| #[trigger] self.block_of(f, o) is Some implies self.pins_of(f, o) == start.pins_of(f, o) by {
                    assert(before.block_of(f, o) is Some);
                }
                assert forall|f: u64, o: u64| #[trigger] start.pins_of(f, o) > 0 implies self.block_of(f, o) == start.block_of(f, o) by {
                    assert(before.block_of(f, o) == start.block_of(f, o));
                    if f == ev.file_id && o == ev.offset {
                        assert(before.block_of(f, o) is Some);
                        assert(before.pins_of(f, o) == start.pins_of(f, o));
                    }
                }
            }
        }
    }

    /// Sets the capacity, evicting unpinned entries as needed.
    pub fn set_capacity(&mut self, capacity: usize)
        requires
            old(self).wf(),
        ensures
            final(self).wf(),
            final(self).capacity == capacity,
            forall|f: u64, o: u64| #[trigger] final(self).block_of(f, o) is None || final(self).block_of(f, o) == old(self).block_of(f, o),
            forall|f: u64, o: u64| #[trigger] final(self).block_of(f, o) is Some ==> final(self).pins_of(f, o) == old(self).pins_of(f, o),
            forall|f: u64, o: u64| #[trigger] old(self).pins_of(f, o) > 0 ==> final(self).block_of(f, o) == old(self).block_of(f, o),
            pinned_charge(final(self).entries@) == pinned_charge(old(self).entries@),
    {
        self.capacity = capacity;
        let ghost mid = *self;
        self.shrink();
        proof {
            assert forall|f: u64, o: u64| #[trigger] old(self).pins_of(f, o) > 0 implies self.block_of(f, o) == old(self).block_of(f, o) by {
                assert(mid.pins_of(f, o) == old(self).pins_of(f, o));
                assert(mid.block_of(f, o) == old(self).block_of(f, o));
            }
            assert forall|f: u64, o: u64| #[trigger] self.block_of(f, o) is Some implies self.pins_of(f, o) == old(self).pins_of(f, o) by {
                assert(mid.pins_of(f, o) == old(self).pins_of(f, o));
            }
            assert forall|f: u64, o: u64| #[trigger] self.block_of(f, o) is None || self.block_of(f, o) == old(self).block_of(f, o) by {
                assert(mid.block_of(f, o) == old(self).block_of(f, o));
            }
        }
    }

    /// Caches `block` under (`file_id`, `offset`) unless that key is cached
    /// already or the block cannot fit beside the pinned entries. Evicts
    /// least recently used unpinned entries to make room; an insert never
    /// takes usage past capacity.
    pub fn insert(&mut self, file_id: u64, offset: u64, block: Vec<u8>) -> (r: bool)
        requires
            old(self).wf(),
        ensures
            final(self).wf(),
            final(self).capacity == old(self).capacity,
            r == (old(self).block_of(file_id, offset) is None && block@.len() + pinned_charge(old(self).entries@)
                <= old(self).capacity),
            r ==> final(self).block_of(file_id, offset) == Some(block@) && final(self).usage <= final(self).capacity,
            !r ==> final(self).block_of(file_id, offset) == old(self).block_of(file_id, offset),
            forall|f: u64, o: u64| !(f == file_id && o == offset) ==> #[trigger] final(self).block_of(f, o) is None
                || final(self).block_of(f, o) == old(self).block_of(f, o),
    {
        if self.position(file_id, offset).is_some() {
            return false;
        }
        proof {
            lemma_pinned_le(self.entries@);
        }
        let ghost start = *self;
        let charge = block.len();
        let mut fits = charge <= self.capacity && self.usage <= self.capacity - charge;
        while !fits
            invariant
                start == *old(self),
                start.block_of(file_id, offset) is None,
                self.wf_core(),
                self.capacity == start.capacity,
                self.kind == start.kind,
                charge == block@.len(),
                fits == (charge <= self.capacity && self.usage <= self.capacity - charge),
                self.block_of(file_id, offset) is None,
                forall|f: u64, o: u64| #[trigger] self.block_of(f, o) is None || self.block_of(f, o) == start.block_of(f, o),
                pinned_charge(self.entries@) == pinned_charge(start.entries@),
            decreases self.entries@.len(),
        {
            let ghost before = *self;
            if !self.evict_one() {
                proof {
                    lemma_pinned_le(self.entries@);
                }
                return false;
            }
            proof {
                let i = choose|i: int| 0 <= i < before.entries@.len() && (#[trigger] before.entries@[i]).pins == 0
                    && self.entries@ == before.entries@.remove(i);
                lemma_block_of_remove(before, *self, i);
                assert forall|f: u64, o: u64| #[trigger] self.block_of(f, o) is None || self.block_of(f, o) == start.block_of(f, o) by {
                    assert(before.block_of(f, o) is None || before.block_of(f, o) == start.block_of(f, o));
                }
                assert(self.block_of(file_id, offset) is None);
            }
            fits = charge <= self.capacity && self.usage <= self.capacity - charge;
        }
        proof {
            lemma_pinned_le(self.entries@);
        }
        let ghost before = *self;
        let now = if self.clock < u64::MAX { self.clock + 1 } else { self.clock };
        self.clock = now;
        self.entries.push(CacheEntry { file_id, offset, block, pins: 0, last_use: now });
        self.usage = self.usage + charge;
        proof {
            let n = before.entries@.len() as int;
            lemma_charge_push(before.entries@, self.entries@[n]);
            assert(self.entries@ == before.entries@.push(self.entries@[n]));
            assert forall|a: int, b: int| 0 <= a < b < self.entries@.len() implies !((#[trigger] self.entries@[a]).file_id == (#[trigger] self.entries@[b]).file_id && self.entries@[a].offset == self.entries@[b].offset) by {
                if b == n {
                    assert(self.entries@[a] == before.entries@[a]);
                } else {
                    assert(self.entries@[a] == before.entries@[a] && self.entries@[b] == before.entries@[b]);
                }
            }
            self.lemma_block_of(file_id, offset, n);
            assert forall|f: u64, o: u64| !(f == file_id && o == offset) implies #[trigger] self.block_of(f, o) is None
                || self.block_of(f, o) == start.block_of(f, o) by {
                if exists|x: int| 0 <= x < self.entries@.len() && (#[trigger] self.entries@[x]).file_id == f && self.entries@[x].offset == o {
                    let x = choose|x: int| 0 <= x < self.entries@.len() && (#[trigger] self.entries@[x]).file_id == f && self.entries@[x].offset == o;
                    assert(x < n);
                    assert(self.entries@[x] == before.entries@[x]);
                    self.lemma_block_of(f, o, x);
                    before.lemma_block_of(f, o, x);
                    assert(before.block_of(f, o) is None || before.block_of(f, o) == start.block_of(f, o));
                }
            }
        }
        true
    }

    fn set_pins(&mut self, i: usize, pins: u64)
        requires
            old(self).wf_core(),
            i < old(self).entries@.len(),
        ensures
            final(self).wf_core(),
            final(self).capacity == old(self).capacity,
            final(self).kind == old(self).kind,
            final(self).usage == old(self).usage,
            final(self).entries@.len() == old(self).entries@.len(),
            final(self).entries@[i as int].pins == pins,
            forall|x: int| 0 <= x < old(self).entries@.len() && x != i ==> #[trigger] final(self).entries@[x] == old(self).entries@[x],
            forall|f: u64, o: u64| #[trigger] final(self).block_of(f, o) == old(self).block_of(f, o),
            forall|f: u64, o: u64| #[trigger] final(self).pins_of(f, o) == if f == old(self).entries@[i as int].file_id && o
                == old(self).entries@[i as int].offset {
                pins
            } else {
                old(self).pins_of(f, o)
            },
    {
        let ghost before = self.entries@;
        let e = CacheEntry {
            file_id: self.entries[i].file_id,
            offset: self.entries[i].offset,
            block: copy_bytes(&self.entries[i].block),
            pins,
            last_use: self.entries[i].last_use,
        };
        self.entries.set(i, e);
        proof {
            lemma_charge_update(before, i as int, self.entries@[i as int]);
            assert(self.entries@ == before.update(i as int, self.entries@[i as int]));
            assert forall|f: u64, o: u64| #[trigger] self.block_of(f, o) == old(self).block_of(f, o) && self.pins_of(f, o) == (if f
                == before[i as int].file_id && o == before[i as int].offset {
                pins
            } else {
                old(self).pins_of(f, o)
            }) by {
                if exists|x: int| 0 <= x < before.len() && (#[trigger] before[x]).file_id == f && before[x].offset == o {
                    let x = choose|x: int| 0 <= x < before.len() && (#[trigger] before[x]).file_id == f && before[x].offset == o;
                    old(self).lemma_block_of(f, o, x);
                    self.lemma_block_of(f, o, x);
                    if f == before[i as int].file_id && o == before[i as int].offset {
                        assert(x == i);
                    }
                } else {
                    assert forall|x: int| 0 <= x < self.entries@.len() implies !((#[trigger] self.entries@[x]).file_id == f && self.entries@[x].offset == o) by {
                        assert(self.entries@[x].file_id == before[x].file_id);
                    }
                }
            }
            assert forall|f: u64, o: u64| #[trigger] self.pins_of(f, o) == (if f == before[i as int].file_id && o == before[i as int].offset {
                pins
            } else {
                old(self).pins_of(f, o)
            }) by {
                assert(self.block_of(f, o) == old(self).block_of(f, o));
            }
        }
    }

    /// Pins the entry of (`file_id`, `offset`) for a live reader, exempting
    /// it from eviction. Returns whether the entry is cached.
    pub fn pin(&mut self, file_id: u64, offset: u64) -> (r: bool)
        requires
            old(self).wf(),
        ensures
            final(self).wf(),
            r == (old(self).block_of(file_id, offset) is Some),
            final(self).usage == old(self).usage,
            final(self).capacity == old(self).capacity,
            forall|f: u64, o: u64| #[trigger] final(self).block_of(f, o) == old(self).block_of(f, o),
            forall|f: u64, o: u64| !(f == file_id && o == offset) ==> #[trigger] final(self).pins_of(f, o) == old(self).pins_of(f, o),
            r ==> final(self).pins_of(file_id, offset) == if old(self).pins_of(file_id, offset) < u64::MAX {
                old(self).pins_of(file_id, offset) + 1
            } else {
                old(self).pins_of(file_id, offset) as int
            },
            !r ==> *final(self) == *old(self),
    {
        match self.position(file_id, offset) {
            None => false,
            Some(i) => {
                proof {
                    self.lemma_block_of(file_id, offset, i as int);
                }
                let p = self.entries[i].pins;
                let np = if p < u64::MAX { p + 1 } else { p };
                self.set_pins(i, np);
                true
            },
        }
    }

    /// Drops one pin of the entry of (`file_id`, `offset`), then evicts
    /// unpinned entries as needed to return within capacity. Returns whether
    /// the entry was cached and pinned.
    pub fn unpin(&mut self, file_id: u64, offset: u64) -> (r: bool)
        requires
            old(self).wf(),
        ensures
            final(self).wf(),
            final(self).capacity == old(self).capacity,
            r == (old(self).block_of(file_id, offset) is Some && old(self).pins_of(file_id, offset) > 0),
            !r ==> *final(self) == *old(self),
            forall|f: u64, o: u64| #[trigger] final(self).block_of(f, o) is None || final(self).block_of(f, o) == old(self).block_of(f, o),
            r ==> forall|f: u64, o: u64| #[trigger] final(self).block_of(f, o) is Some ==> final(self).pins_of(f, o) == if f == file_id && o
                == offset {
                (old(self).pins_of(f, o) - 1) as u64
            } else {
                old(self).pins_of(f, o)
            },
            forall|f: u64, o: u64| !(f == file_id && o == offset) && #[trigger] old(self).pins_of(f, o) > 0 ==> final(self).block_of(f, o)
                == old(self).block_of(f, o),
            r && old(self).pins_of(file_id, offset) > 1 ==> final(self).block_of(file_id, offset) == old(self).block_of(file_id, offset),
    {
        match self.position(file_id, offset) {
            None => {
                assert(old(self).block_of(file_id, offset) is None);
                false
            },
            Some(i) => {
                proof {
                    self.lemma_block_of(file_id, offset, i as int);
                }
                let p = self.entries[i].pins;
                if p == 0 {
                    return false;
                }
                let ghost before = *self;
                self.set_pins(i, p - 1);
                let ghost mid = *self;
                self.shrink();
                proof {
                    assert forall|f: u64, o: u64| #[trigger] self.block_of(f, o) is None || self.block_of(f, o) == old(self).block_of(f, o) by {
                        assert(mid.block_of(f, o) == before.block_of(f, o));
                    }
                    assert forall|f: u64, o: u64| #[trigger] self.block_of(f, o) is Some implies self.pins_of(f, o) == if f == file_id && o
                        == offset {
                        (old(self).pins_of(f, o) - 1) as u64
                    } else {
                        old(self).pins_of(f, o)
                    } by {
                        assert(old(self).pins_of(file_id, offset) == p);
                        assert(before.entries@[i as int].file_id == file_id && before.entries@[i as int].offset == offset);
                        assert(mid.block_of(f, o) == before.block_of(f, o));
                        assert(mid.pins_of(f, o) == (if f == file_id && o == offset { (p - 1) as u64 } else { before.pins_of(f, o) }));
                        assert(self.pins_of(f, o) == mid.pins_of(f, o));
                    }
                    assert forall|f: u64, o: u64| !(f == file_id && o == offset) && #[trigger] old(self).pins_of(f, o) > 0 implies self.block_of(f, o)
                        == old(self).block_of(f, o) by {
                        assert(mid.pins_of(f, o) == before.pins_of(f, o));
                    }
                    if p > 1 {
                        assert(mid.pins_of(file_id, offset) > 0);
                    }
                }
                true
            },
        }
    }
}

/// Removing an entry keeps every other key's block and loses only the
/// removed key's.
proof fn lemma_block_of_remove(c: Cache, d: Cache, i: int)
    requires
        c.wf_core(),
        0 <= i < c.entries@.len(),
        d.entries@ == c.entries@.remove(i),
    ensures
        forall|f: u64, o: u64| #[trigger] d.block_of(f, o) == if f == c.entries@[i].file_id && o == c.entries@[i].offset {
            None
        } else {
            c.block_of(f, o)
        },
        forall|f: u64, o: u64| #[trigger] d.pins_of(f, o) == if f == c.entries@[i].file_id && o == c.entries@[i].offset {
            0
        } else {
            c.pins_of(f, o)
        },
{
    let s = c.entries@;
    let t = d.entries@;
    assert forall|a: int, b: int| 0 <= a < b < t.len() implies !((#[trigger] t[a]).file_id == (#[trigger] t[b]).file_id && t[a].offset == t[b].offset) by {
        let a2 = if a < i { a } else { a + 1 };
        let b2 = if b < i { b } else { b + 1 };
        assert(t[a] == s[a2] && t[b] == s[b2]);
    }
    assert forall|f: u64, o: u64| #[trigger] d.block_of(f, o) == (if f == s[i].file_id && o == s[i].offset {
        None
    } else {
        c.block_of(f, o)
    }) && d.pins_of(f, o) == (if f == s[i].file_id && o == s[i].offset {
        0
    } else {
        c.pins_of(f, o)
    }) by {
        if exists|x: int| 0 <= x < t.len() && (#[trigger] t[x]).file_id == f && t[x].offset == o {
            let x = choose|x: int| 0 <= x < t.len() && (#[trigger] t[x]).file_id == f && t[x].offset == o;
            let y = if x < i { x } else { x + 1 };
            assert(t[x] == s[y]);
            if f == s[i].file_id && o == s[i].offset {
                assert(y != i);
            }
            let w = choose|w: int| 0 <= w < s.len() && (#[trigger] s[w]).file_id == f && s[w].offset == o;
            assert(w == y);
        } else {
            if !(f == s[i].file_id && o == s[i].offset) {
                if exists|w: int| 0 <= w < s.len() && (#[trigger] s[w]).file_id == f && s[w].offset == o {
                    let w = choose|w: int| 0 <= w < s.len() && (#[trigger] s[w]).file_id == f && s[w].offset == o;
                    let x = if w < i { w } else { w - 1 };
                    assert(t[x] == s[w]);
                }
            }
        }
    }
    assert forall|f: u64, o: u64| #[trigger] d.pins_of(f, o) == (if f == s[i].file_id && o == s[i].offset {
        0
    } else {
        c.pins_of(f, o)
    }) by {
        assert(d.block_of(f, o) == d.block_of(f, o));
    }
}

proof fn lemma_charge_prefix(s: Seq<CacheEntry>, n: int)
    requires
        0 <= n <= s.len(),
    ensures
        total_charge(s.take(n)) <= total_charge(s),
    decreases s.len() - n,
{
    if n < s.len() {
        lemma_charge_prefix(s, n + 1);
        assert(s.take(n + 1).drop_last() =~= s.take(n));
    } else {
        assert(s.take(n) =~= s);
    }
}

} // verus!
