//! What the library knows of an accelerator.
//!
//! The accelerator itself is driven by the caller.  The library is told what
//! the accelerator answered, and decides from the answer what is left to do.

use vstd::arithmetic::power2::*;
use vstd::prelude::*;

verus! {

/// Why the accelerator did not do what was asked of it.
#[derive(Clone, Copy, Debug, PartialEq, Eq)]
pub enum GPUError {
    /// There is no accelerator.
    GPUDisabled,
    /// The kernel was never set up, or has lost its device.
    KernelUninitialized,
    /// The device reported a failure.
    DeviceFailure,
}

/// A kernel that the accelerator has set up.
#[derive(Clone, Copy, Debug, PartialEq, Eq)]
pub struct FFTKernel {
    max_size: usize,
    priority: bool,
}

impl FFTKernel {
    /// The largest number of entries that the kernel transforms.
    pub closed spec fn spec_max_size(&self) -> usize {
        self.max_size
    }

    /// Whether the kernel runs with priority.
    pub closed spec fn spec_priority(&self) -> bool {
        self.priority
    }

    #[verifier::when_used_as_spec(spec_max_size)]
    pub fn max_size(&self) -> (n: usize)
        ensures
            n == self.spec_max_size(),
    {
        self.max_size
    }

    #[verifier::when_used_as_spec(spec_priority)]
    pub fn priority(&self) -> (p: bool)
        ensures
            p == self.spec_priority(),
    {
        self.priority
    }
}

/// The number of entries that a kernel for `2^log_d` entries is asked to
/// take, where that number can be held.
pub fn kernel_size(log_d: usize) -> (n: Option<usize>)
    ensures
        match n {
            Some(n) => log_d < usize::BITS && n == pow2(log_d as nat),
            None => log_d >= usize::BITS,
        },
{
    if log_d >= usize::BITS as usize {
        return None;
    }
    let mut n: usize = 1;
    let mut i: usize = 0;
    proof {
        lemma2_to64();
    }
    while i < log_d
        invariant
            i <= log_d < usize::BITS,
            n == pow2(i as nat),
        decreases log_d - i,
    {
        proof {
            lemma2_to64();
            lemma_pow2_unfold((i + 1) as nat);
            lemma_pow2_unfold(32);
            lemma_pow2_unfold(64);
            if usize::BITS == 32 {
                if i + 1 < 31 {
                    lemma_pow2_strictly_increases((i + 1) as nat, 31);
                }
            } else {
                if i + 1 < 63 {
                    lemma_pow2_strictly_increases((i + 1) as nat, 63);
                }
            }
        }
        n = n * 2;
        i = i + 1;
    }
    Some(n)
}

/// The kernel for transforms of up to `2^log_d` entries, if there is one.
///
/// `device` is what the accelerator answered when it was asked to set such a
/// kernel up.  A failure there is no failure here: without a kernel every
/// transform is computed by the library.
pub fn create_fft_kernel(log_d: usize, priority: bool, device: Result<(), GPUError>) -> (kern:
    Option<FFTKernel>)
    ensures
        match kern {
            Some(k) => {
                &&& device is Ok
                &&& log_d < usize::BITS
                &&& k.max_size() == pow2(log_d as nat)
                &&& k.priority() == priority
            },
            None => device is Err || log_d >= usize::BITS,
        },
{
    match device {
        Ok(_) => match kernel_size(log_d) {
            Some(max_size) => Some(FFTKernel { max_size, priority }),
            None => None,
        },
        Err(_) => None,
    }
}

} // verus!
