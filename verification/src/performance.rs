//! Memory accounting, checkpoint timing and chunk sizing for large inputs.
use vstd::prelude::*;

verus! {

broadcast use vstd::string::group_string_axioms;

pub const MIB: usize = 1048576;

/// Bytes in use and the largest number of bytes in use seen so far.
pub struct MemoryMonitor {
    peak_usage: usize,
    current_usage: usize,
}

impl MemoryMonitor {
    pub closed spec fn peak(&self) -> nat {
        self.peak_usage as nat
    }

    pub closed spec fn current(&self) -> nat {
        self.current_usage as nat
    }

    /// The peak is never below the bytes in use.
    pub open spec fn wf(&self) -> bool {
        self.current() <= self.peak()
    }

    pub fn new() -> (m: Self)
        ensures
            m.peak() == 0,
            m.current() == 0,
            m.wf(),
    {
        MemoryMonitor { peak_usage: 0, current_usage: 0 }
    }

    /// Counts `size` more bytes in use, raising the peak when it is passed.
    pub fn record_allocation(&mut self, size: usize)
        requires
            old(self).current() + size <= usize::MAX,
        ensures
            final(self).current() == old(self).current() + size,
            final(self).peak() == if old(self).current() + size > old(self).peak() {
                old(self).current() + size
            } else {
                old(self).peak() as int
            },
            final(self).wf(),
    {
        let current = self.current_usage + size;
        self.current_usage = current;
        if current > self.peak_usage {
            self.peak_usage = current;
        }
    }

    /// Counts `size` bytes fewer in use (wrapping, as the atomic counter does).
    pub fn record_deallocation(&mut self, size: usize)
        ensures
            final(self).current() == (if size <= old(self).current() {
                old(self).current() - size
            } else {
                old(self).current() - size + usize::MAX + 1
            }),
            final(self).peak() == old(self).peak(),
            old(self).wf() && size <= old(self).current() ==> final(self).wf(),
    {
        if size <= self.current_usage {
            self.current_usage = self.current_usage - size;
        } else {
            self.current_usage = (usize::MAX - (size - self.current_usage)) + 1;
        }
    }

    /// The peak in whole MiB.
    pub fn get_peak_mb(&self) -> (r: usize)
        ensures
            r == self.peak() / MIB as nat,
    {
        self.peak_usage / MIB
    }

    /// The bytes in use in whole MiB.
    pub fn get_current_mb(&self) -> (r: usize)
        ensures
            r == self.current() / MIB as nat,
    {
        self.current_usage / MIB
    }
}

impl Default for MemoryMonitor {
    fn default() -> (m: Self)
        ensures
            m.peak() == 0,
            m.current() == 0,
    {
        Self::new()
    }
}

/// The peak never falls below the bytes in use, whatever the order of
/// allocations and (covered) deallocations.
pub proof fn law_peak_covers_current(m: MemoryMonitor, size: usize)
    requires
        m.wf(),
        m.current() + size <= usize::MAX,
    ensures
        m.current() + size <= if m.current() + size > m.peak() {
            m.current() + size
        } else {
            m.peak() as int
        },
{
}

/// Memory of the machine, MiB.
#[derive(Debug, Clone)]
pub struct SystemMemoryInfo {
    pub total_mb: u64,
    pub free_mb: u64,
    pub used_mb: u64,
}

/// Named checkpoints of a run, with times in nanoseconds on a monotonic clock
/// that the caller reads.
pub struct PerformanceProfiler {
    start_time: u64,
    checkpoints: Vec<(String, u64)>,
}

impl PerformanceProfiler {
    pub closed spec fn start(&self) -> u64 {
        self.start_time
    }

    pub closed spec fn marks(&self) -> Seq<(Seq<char>, u64)> {
        Seq::new(self.checkpoints@.len(), |i: int| (self.checkpoints@[i].0@, self.checkpoints@[i].1))
    }

    /// A profiler started at `now`.
    pub fn new(now: u64) -> (p: Self)
        ensures
            p.start() == now,
            p.marks().len() == 0,
    {
        PerformanceProfiler { start_time: now, checkpoints: Vec::new() }
    }

    /// Records the checkpoint `name` at `now`.
    pub fn checkpoint(&mut self, name: &str, now: u64)
        ensures
            final(self).start() == old(self).start(),
            final(self).marks() == old(self).marks().push((name@, now)),
    {
        self.checkpoints.push((name.to_owned(), now));
        assert(self.marks() =~= old(self).marks().push((name@, now)));
    }

    /// Time from the start to the last checkpoint, or to `now` when there is
    /// none; zero if that moment precedes the start.
    pub fn get_total_time(&self, now: u64) -> (r: u64)
        ensures
            r == (if self.marks().len() > 0 {
                let last = self.marks().last().1;
                if last >= self.start() {
                    last - self.start()
                } else {
                    0
                }
            } else {
                if now >= self.start() {
                    now - self.start()
                } else {
                    0
                }
            }),
    {
        let end = if self.checkpoints.len() > 0 {
            self.checkpoints[self.checkpoints.len() - 1].1
        } else {
            now
        };
        end.saturating_sub(self.start_time)
    }
}

/// The chunk size of a bulk read: a quarter, an eighth or a sixteenth of the
/// input (below 100 MiB, below 1 GiB, beyond), capped at a tenth of the
/// available memory and at 100 MiB, and at least 1 MiB.
pub open spec fn optimal_chunk_size(file_size: nat, available_memory_mb: nat) -> nat {
    let mem_cap = (available_memory_mb * 1048576) / 10;
    let cap = if mem_cap < 104857600 {
        mem_cap
    } else {
        104857600
    };
    let suggested = if file_size < 104857600 {
        file_size / 4
    } else if file_size < 1073741824 {
        file_size / 8
    } else {
        file_size / 16
    };
    let bounded = if cap < suggested {
        cap
    } else {
        suggested
    };
    if bounded > 1048576 {
        bounded
    } else {
        1048576
    }
}

pub fn calculate_optimal_chunk_size(file_size: usize, available_memory_mb: usize) -> (r: usize)
    requires
        available_memory_mb * 1048576 <= usize::MAX,
    ensures
        r == optimal_chunk_size(file_size as nat, available_memory_mb as nat),
{
    let max_chunk_size = (available_memory_mb * 1024 * 1024) / 10;
    let min_chunk_size: usize = 1024 * 1024;
    let max_chunk_size = if max_chunk_size < 100 * 1024 * 1024 {
        max_chunk_size
    } else {
        100 * 1024 * 1024
    };
    let suggested_chunk_size = if file_size < 100 * 1024 * 1024 {
        file_size / 4
    } else if file_size < 1024 * 1024 * 1024 {
        file_size / 8
    } else {
        file_size / 16
    };
    let bounded = if max_chunk_size < suggested_chunk_size {
        max_chunk_size
    } else {
        suggested_chunk_size
    };
    if bounded > min_chunk_size {
        bounded
    } else {
        min_chunk_size
    }
}

} // verus!
