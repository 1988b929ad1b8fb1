//! The parallel-execution context the table builds are handed. The build
//! partitions its index range into contiguous chunks of the size chosen here,
//! one unit of work per chunk; every chunk writes a disjoint sub-range, and
//! the tables it produces are the same whatever the degree of parallelism.

use vstd::prelude::*;
use vstd::arithmetic::div_mod::lemma_div_non_zero;

verus! {

/// A fork-join execution context with a fixed degree of parallelism.
pub struct Worker {
    pub cpus: usize,
}

impl Worker {
    pub fn new() -> (r: Worker)
        ensures
            r.cpus == 1,
    {
        Worker { cpus: 1 }
    }

    /// A context of the given degree, so callers (and tests) can pick the
    /// partitioning themselves.
    pub fn with_cpus(cpus: usize) -> (r: Worker)
        requires
            cpus >= 1,
        ensures
            r.cpus == cpus,
    {
        Worker { cpus }
    }

    /// The chunk size a range of `elements` indices is partitioned into:
    /// one element per chunk when there are at least as many workers as
    /// elements, an even split otherwise.
    pub fn chunk_size(&self, elements: usize) -> (r: usize)
        ensures
            r >= 1,
            self.cpus == 0 || elements <= self.cpus ==> r == 1,
            self.cpus > 0 && elements > self.cpus ==> r == elements / self.cpus,
    {
        if self.cpus == 0 || elements <= self.cpus {
            1
        } else {
            proof {
                lemma_div_non_zero(elements as int, self.cpus as int);
            }
            elements / self.cpus
        }
    }
}

} // verus!
