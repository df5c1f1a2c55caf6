//! How the work on a buffer is divided.
//!
//! A [`Worker`] knows how many processors there are, and from that the size
//! of the contiguous chunks into which a buffer is cut and the number of
//! independent parts into which a transform is split.  The library works
//! through the chunks and the parts in turn.

use vstd::arithmetic::power2::*;
use vstd::prelude::*;

verus! {

/// A division of work over a number of processors.
#[derive(Clone, Copy, Debug)]
pub struct Worker {
    cpus: usize,
}

impl Worker {
    /// The number of processors.
    pub closed spec fn num_cpus(&self) -> nat {
        self.cpus as nat
    }

    /// There is at least one processor.
    pub open spec fn wf(&self) -> bool {
        self.num_cpus() >= 1
    }

    /// A worker for `cpus` processors, and for one where `cpus` is zero.
    pub fn new(cpus: usize) -> (w: Worker)
        ensures
            w.wf(),
            w.num_cpus() == (if cpus == 0 { 1 } else { cpus as nat }),
    {
        Worker { cpus: if cpus == 0 { 1 } else { cpus } }
    }

    /// The largest `r` with `2^r` no more than the number of processors.
    pub fn log_num_cpus(&self) -> (r: u32)
        requires
            self.wf(),
        ensures
            pow2(r as nat) <= self.num_cpus() < pow2((r + 1) as nat),
    {
        let mut r: u32 = 0;
        let mut p: usize = 1;
        proof {
            lemma2_to64();
        }
        while p <= self.cpus / 2
            invariant
                p == pow2(r as nat),
                1 <= p <= self.cpus,
                r < usize::BITS,
            decreases self.cpus - p,
        {
            proof {
                lemma2_to64();
                lemma_pow2_unfold((r + 1) as nat);
                if r + 1 >= usize::BITS {
                    // twice p would then be more than a usize holds
                    if usize::BITS == 32 {
                        if r + 1 > 32 {
                            lemma_pow2_strictly_increases(32, (r + 1) as nat);
                        }
                    } else {
                        if r + 1 > 64 {
                            lemma_pow2_strictly_increases(64, (r + 1) as nat);
                        }
                    }
                    assert(false);
                }
            }
            p = p * 2;
            r = r + 1;
        }
        proof {
            lemma_pow2_unfold((r + 1) as nat);
        }
        r
    }

    /// The size of the chunks into which a buffer of `elements` entries is
    /// cut: one chunk for each processor, and chunks of one entry where there
    /// are fewer entries than processors.
    pub fn chunk_size(&self, elements: usize) -> (c: usize)
        requires
            self.wf(),
        ensures
            c >= 1,
            c == (if elements < self.num_cpus() {
                1
            } else {
                elements as nat / self.num_cpus()
            }),
    {
        if elements < self.cpus {
            1
        } else {
            assert(elements / self.cpus >= 1) by (nonlinear_arith)
                requires
                    elements >= self.cpus >= 1,
            ;
            elements / self.cpus
        }
    }

    /// Where the chunk that starts at `start` ends, in a buffer of `len`
    /// entries.
    pub fn chunk_end(start: usize, chunk: usize, len: usize) -> (end: usize)
        requires
            start < len,
            chunk >= 1,
        ensures
            start < end <= len,
            end == (if start + chunk < len { start + chunk } else { len as int }),
    {
        if len - start <= chunk {
            len
        } else {
            start + chunk
        }
    }
}

} // verus!
