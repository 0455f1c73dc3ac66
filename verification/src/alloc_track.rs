//! How much memory was taken and given back.

use vstd::prelude::*;

verus! {

/// What was counted so far.
#[derive(Debug, Clone, Copy, PartialEq, Eq, Structural)]
pub struct AllocStats {
    pub allocs: u64,
    pub deallocs: u64,
    pub reallocs: u64,
    pub bytes_allocated: u64,
    pub bytes_deallocated: u64,
    pub current_bytes: usize,
    pub peak_bytes: usize,
}

impl AllocStats {
    /// Nothing was counted.
    pub open spec fn none() -> AllocStats {
        AllocStats {
            allocs: 0,
            deallocs: 0,
            reallocs: 0,
            bytes_allocated: 0,
            bytes_deallocated: 0,
            current_bytes: 0,
            peak_bytes: 0,
        }
    }
}

impl Default for AllocStats {
    fn default() -> (r: AllocStats)
        ensures
            r == AllocStats::none(),
    {
        AllocStats {
            allocs: 0,
            deallocs: 0,
            reallocs: 0,
            bytes_allocated: 0,
            bytes_deallocated: 0,
            current_bytes: 0,
            peak_bytes: 0,
        }
    }
}

/// The counters of an allocator, for the process and for one thread. Those of
/// the process wrap around.
#[derive(Debug, Clone, Copy, PartialEq, Eq, Structural)]
pub struct CountingAllocator {
    pub stats: AllocStats,
    pub thread_allocs: u64,
    pub thread_bytes: u64,
}

/// The low 64 bits of a sum.
pub open spec fn low64(n: int) -> u64 {
    (n % 0x1_0000_0000_0000_0000) as u64
}

/// A size that is less by another; below zero it wraps around.
pub open spec fn shrunk(a: usize, b: usize) -> usize {
    if a >= b {
        (a - b) as usize
    } else {
        (a - b + usize::MAX + 1) as usize
    }
}

/// The larger of two sizes.
pub open spec fn peak(a: usize, b: usize) -> usize {
    if a > b {
        a
    } else {
        b
    }
}

impl CountingAllocator {
    /// Whether what is in use is what was taken and not given back, and was
    /// never more than the peak.
    pub open spec fn wf(self) -> bool {
        &&& self.stats.current_bytes == self.stats.bytes_allocated - self.stats.bytes_deallocated
        &&& self.stats.current_bytes <= self.stats.peak_bytes
    }

    /// After `size` bytes were taken.
    pub open spec fn allocated(self, size: usize) -> CountingAllocator {
        let current = (self.stats.current_bytes + size) as usize;
        CountingAllocator {
            stats: AllocStats {
                allocs: low64(self.stats.allocs + 1),
                bytes_allocated: low64(self.stats.bytes_allocated + size),
                current_bytes: current,
                peak_bytes: peak(self.stats.peak_bytes, current),
                ..self.stats
            },
            thread_allocs: (self.thread_allocs + 1) as u64,
            thread_bytes: (self.thread_bytes + size) as u64,
        }
    }

    /// After `size` bytes were given back.
    pub open spec fn deallocated(self, size: usize) -> CountingAllocator {
        CountingAllocator {
            stats: AllocStats {
                deallocs: low64(self.stats.deallocs + 1),
                bytes_deallocated: low64(self.stats.bytes_deallocated + size),
                current_bytes: shrunk(self.stats.current_bytes, size),
                ..self.stats
            },
            ..self
        }
    }

    /// After a piece of `old_size` bytes became one of `new_size` bytes.
    pub open spec fn reallocated(self, old_size: usize, new_size: usize) -> CountingAllocator {
        if new_size >= old_size {
            let more = (new_size - old_size) as usize;
            let current = (self.stats.current_bytes + more) as usize;
            CountingAllocator {
                stats: AllocStats {
                    reallocs: low64(self.stats.reallocs + 1),
                    bytes_allocated: low64(self.stats.bytes_allocated + more),
                    current_bytes: current,
                    peak_bytes: peak(self.stats.peak_bytes, current),
                    ..self.stats
                },
                thread_bytes: (self.thread_bytes + more) as u64,
                ..self
            }
        } else {
            let less = (old_size - new_size) as usize;
            CountingAllocator {
                stats: AllocStats {
                    reallocs: low64(self.stats.reallocs + 1),
                    bytes_deallocated: low64(self.stats.bytes_deallocated + less),
                    current_bytes: shrunk(self.stats.current_bytes, less),
                    ..self.stats
                },
                ..self
            }
        }
    }

    /// Counters at zero.
    pub fn new() -> (r: CountingAllocator)
        ensures
            r.stats == AllocStats::none(),
            r.thread_allocs == 0,
            r.thread_bytes == 0,
            r.wf(),
    {
        CountingAllocator { stats: AllocStats::default(), thread_allocs: 0, thread_bytes: 0 }
    }

    /// Counts that `size` bytes were taken.
    pub fn count_alloc(&mut self, size: usize)
        requires
            old(self).stats.current_bytes + size <= usize::MAX,
            old(self).thread_allocs < u64::MAX,
            old(self).thread_bytes + size <= u64::MAX,
        ensures
            *final(self) == old(self).allocated(size),
    {
        self.stats.allocs = add_low(self.stats.allocs, 1);
        self.stats.bytes_allocated = add_low(self.stats.bytes_allocated, size as u64);
        self.grow(size);
        self.thread_allocs = self.thread_allocs + 1;
        self.thread_bytes = self.thread_bytes + size as u64;
    }

    /// Counts that `size` bytes were given back.
    pub fn count_dealloc(&mut self, size: usize)
        ensures
            *final(self) == old(self).deallocated(size),
    {
        self.stats.deallocs = add_low(self.stats.deallocs, 1);
        self.stats.bytes_deallocated = add_low(self.stats.bytes_deallocated, size as u64);
        self.stats.current_bytes = self.stats.current_bytes.wrapping_sub(size);
    }

    /// Counts that a piece of `old_size` bytes became one of `new_size` bytes.
    pub fn count_realloc(&mut self, old_size: usize, new_size: usize)
        requires
            new_size > old_size ==> {
                &&& old(self).stats.current_bytes + (new_size - old_size) <= usize::MAX
                &&& old(self).thread_bytes + (new_size - old_size) <= u64::MAX
            },
        ensures
            *final(self) == old(self).reallocated(old_size, new_size),
    {
        self.stats.reallocs = add_low(self.stats.reallocs, 1);
        if new_size >= old_size {
            let more: usize = new_size - old_size;
            self.stats.bytes_allocated = add_low(self.stats.bytes_allocated, more as u64);
            self.grow(more);
            self.thread_bytes = self.thread_bytes + more as u64;
        } else {
            let less: usize = old_size - new_size;
            self.stats.bytes_deallocated = add_low(self.stats.bytes_deallocated, less as u64);
            self.stats.current_bytes = self.stats.current_bytes.wrapping_sub(less);
        }
    }

    /// More bytes are in use; the peak follows.
    fn grow(&mut self, size: usize)
        requires
            old(self).stats.current_bytes + size <= usize::MAX,
        ensures
            ({
                let current = (old(self).stats.current_bytes + size) as usize;
                *final(self) == (CountingAllocator {
                    stats: AllocStats {
                        current_bytes: current,
                        peak_bytes: peak(old(self).stats.peak_bytes, current),
                        ..old(self).stats
                    },
                    ..*old(self)
                })
            }),
    {
        let current: usize = self.stats.current_bytes + size;
        self.stats.current_bytes = current;
        if current > self.stats.peak_bytes {
            self.stats.peak_bytes = current;
        }
    }

    /// What the thread took: how often, and how many bytes.
    pub fn thread_snapshot(&self) -> (r: (u64, u64))
        ensures
            r == (self.thread_allocs, self.thread_bytes),
    {
        (self.thread_allocs, self.thread_bytes)
    }

    /// What was counted so far.
    pub fn snapshot(&self) -> (r: AllocStats)
        ensures
            r == self.stats,
    {
        self.stats
    }
}

fn add_low(a: u64, b: u64) -> (r: u64)
    ensures
        r == low64(a + b),
{
    a.wrapping_add(b)
}

/// How much more a number is than another, or nothing.
pub open spec fn excess(a: u64, b: u64) -> u64 {
    if a > b {
        (a - b) as u64
    } else {
        0
    }
}

/// What was counted between two moments. What is in use, and the peak, are those
/// of the later one.
pub open spec fn delta_of(start: AllocStats, end: AllocStats) -> AllocStats {
    AllocStats {
        allocs: excess(end.allocs, start.allocs),
        deallocs: excess(end.deallocs, start.deallocs),
        reallocs: excess(end.reallocs, start.reallocs),
        bytes_allocated: excess(end.bytes_allocated, start.bytes_allocated),
        bytes_deallocated: excess(end.bytes_deallocated, start.bytes_deallocated),
        current_bytes: end.current_bytes,
        peak_bytes: end.peak_bytes,
    }
}

/// What was counted between two moments.
pub fn delta(start: AllocStats, end: AllocStats) -> (r: AllocStats)
    ensures
        r == delta_of(start, end),
{
    AllocStats {
        allocs: end.allocs.saturating_sub(start.allocs),
        deallocs: end.deallocs.saturating_sub(start.deallocs),
        reallocs: end.reallocs.saturating_sub(start.reallocs),
        bytes_allocated: end.bytes_allocated.saturating_sub(start.bytes_allocated),
        bytes_deallocated: end.bytes_deallocated.saturating_sub(start.bytes_deallocated),
        current_bytes: end.current_bytes,
        peak_bytes: end.peak_bytes,
    }
}

/// What is in use stays what was taken and not given back, and below the peak,
/// as long as the counters do not wrap around.
pub proof fn counters_balance(c: CountingAllocator, size: usize, new_size: usize)
    requires
        c.wf(),
        size <= c.stats.current_bytes,
        c.stats.bytes_allocated + size + new_size <= u64::MAX,
        c.stats.current_bytes + size + new_size <= usize::MAX,
    ensures
        c.allocated(size).wf(),
        c.deallocated(size).wf(),
        c.reallocated(size, new_size).wf(),
{
    lemma_low64(c.stats.bytes_allocated + size);
    lemma_low64(c.stats.bytes_deallocated + size);
    if new_size >= size {
        lemma_low64(c.stats.bytes_allocated + (new_size - size));
    } else {
        lemma_low64(c.stats.bytes_deallocated + (size - new_size));
    }
}

proof fn lemma_low64(n: int)
    requires
        0 <= n <= u64::MAX,
    ensures
        low64(n) == n,
{
}

/// Giving back what was just taken leaves as much in use as before, and a peak
/// that is no lower.
pub proof fn dealloc_undoes_alloc(c: CountingAllocator, size: usize)
    requires
        c.stats.current_bytes + size <= usize::MAX,
    ensures
        c.allocated(size).deallocated(size).stats.current_bytes == c.stats.current_bytes,
        c.allocated(size).deallocated(size).stats.peak_bytes >= c.stats.peak_bytes,
{
}

/// Where nothing wrapped around, the earlier counts and what was counted since
/// make the later counts.
pub proof fn delta_makes_up_the_difference(start: AllocStats, end: AllocStats)
    requires
        start.allocs <= end.allocs,
        start.deallocs <= end.deallocs,
        start.reallocs <= end.reallocs,
        start.bytes_allocated <= end.bytes_allocated,
        start.bytes_deallocated <= end.bytes_deallocated,
    ensures
        start.allocs + delta_of(start, end).allocs == end.allocs,
        start.deallocs + delta_of(start, end).deallocs == end.deallocs,
        start.reallocs + delta_of(start, end).reallocs == end.reallocs,
        start.bytes_allocated + delta_of(start, end).bytes_allocated == end.bytes_allocated,
        start.bytes_deallocated + delta_of(start, end).bytes_deallocated == end.bytes_deallocated,
{
}

} // verus!
