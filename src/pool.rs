//! The bookkeeping of a worker pool that replaces workers that panic: how
//! many workers run, and how many to start so that the pool is back to its
//! size.
use vstd::prelude::*;

verus! {

/// The workers a pool should have and the workers it has.
pub struct WorkerCensus {
    size: u64,
    alive: u64,
}

impl WorkerCensus {
    /// The number of workers the pool keeps.
    pub closed spec fn size(&self) -> u64 {
        self.size
    }

    /// The number of workers running.
    pub closed spec fn alive(&self) -> u64 {
        self.alive
    }

    /// A pool of `size` workers, none started yet.
    pub fn new(size: u64) -> (r: WorkerCensus)
        ensures
            r.size() == size,
            r.alive() == 0,
    {
        WorkerCensus { size, alive: 0 }
    }

    /// The number of workers running.
    pub fn running(&self) -> (r: u64)
        ensures
            r == self.alive(),
    {
        self.alive
    }

    /// The number of workers to start to bring the pool to its size.
    pub fn missing(&self) -> (r: u64)
        ensures
            r == if self.alive() < self.size() {
                self.size() - self.alive()
            } else {
                0
            },
    {
        if self.alive < self.size {
            self.size - self.alive
        } else {
            0
        }
    }

    /// A worker started.
    pub fn started(&mut self)
        requires
            old(self).alive() < u64::MAX,
        ensures
            final(self).alive() == old(self).alive() + 1,
            final(self).size() == old(self).size(),
    {
        self.alive = self.alive + 1;
    }

    /// A worker panicked and is gone: hands back how many workers to start
    /// so that the pool is back to its size.
    pub fn panicked(&mut self) -> (r: u64)
        requires
            old(self).alive() >= 1,
        ensures
            final(self).alive() == old(self).alive() - 1,
            final(self).size() == old(self).size(),
            old(self).alive() <= old(self).size() ==> final(self).alive() + r == final(self).size(),
    {
        self.alive = self.alive - 1;
        self.missing()
    }
}

} // verus!
