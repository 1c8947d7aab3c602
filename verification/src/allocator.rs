//! The allocator facade: the rest of the kernel's sole source of dynamic
//! physical memory. It wraps the buddy core behind the external
//! mutual-exclusion capability — every operation acquires the lock,
//! delegates to the core, and releases the lock on the way out — and fixes
//! the kernel's configuration: 16-byte leaves and a 4096-byte maximum
//! alignment.

use vstd::prelude::*;
use vstd::arithmetic::power2::{is_pow2, is_pow2_equiv, lemma_pow2, pow2};
use crate::buddy::{init_feasible, spec_init, AllocError, BuddyAllocator, BuddyView};
use crate::locks::SpinLock;

verus! {

/// Smallest chunk size the kernel allocator hands out, in bytes.
pub const KERNEL_LEAF_SIZE: usize = 16;

/// Largest alignment the kernel allocator promises to satisfy, in bytes.
pub const KERNEL_MAX_ALIGNMENT: usize = 4096;

/// The kernel's physical-memory allocator: the buddy core guarded by a spin
/// lock.
pub struct ArnoAllocator {
    buddyAllocator: SpinLock<BuddyAllocator>,
}

impl ArnoAllocator {
    /// Whether `init` has run.
    pub closed spec fn is_init(&self) -> bool {
        self.buddyAllocator.view().is_init()
    }

    /// The abstract state of the underlying buddy core.
    pub closed spec fn view(&self) -> BuddyView {
        self.buddyAllocator.view().view()
    }

    /// The facade's invariant: the lock is free between operations and the
    /// core is well-formed.
    pub closed spec fn inv(&self) -> bool {
        &&& !self.buddyAllocator.is_acquired()
        &&& self.buddyAllocator.view().inv()
    }

    /// An allocator that manages nothing until `init` is called.
    pub fn new() -> (r: ArnoAllocator)
        ensures
            !r.is_init(),
            r.inv(),
    {
        ArnoAllocator { buddyAllocator: SpinLock::new(BuddyAllocator::new()) }
    }

    /// Initializes the underlying buddy allocator over the memory between
    /// the end of the loaded kernel image and the end of physical memory.
    /// Called exactly once during kernel startup, before any other
    /// subsystem allocates.
    pub fn init(&mut self, kernelEndAddress: usize, memoryRegionEnding: usize)
        requires
            !old(self).is_init(),
            old(self).inv(),
            init_feasible(
                kernelEndAddress as int,
                memoryRegionEnding as int,
                KERNEL_LEAF_SIZE as int,
                KERNEL_MAX_ALIGNMENT as int,
            ),
        ensures
            final(self).is_init(),
            final(self).inv(),
            final(self).view() == spec_init(
                kernelEndAddress as int,
                memoryRegionEnding as int,
                KERNEL_LEAF_SIZE as int,
                KERNEL_MAX_ALIGNMENT as int,
            ),
            final(self).view().wf(),
    {
        proof {
            lemma_kernel_constants_pow2();
        }
        let guard = self.buddyAllocator.acquire();
        let core = self.buddyAllocator.data_mut();
        core.init(
            kernelEndAddress,
            memoryRegionEnding,
            KERNEL_LEAF_SIZE,
            KERNEL_MAX_ALIGNMENT,
        );
        self.buddyAllocator.release(guard);
        proof {
            self.buddyAllocator.view().lemma_inv_wf();
        }
    }

    /// Serves an allocation request of `size` bytes aligned to `align`
    /// through the lock. `align` must not exceed the configured maximum
    /// alignment. A zero-sized request yields the null address, which must
    /// never be dereferenced. Out-of-memory is reported to the caller, who
    /// may free memory elsewhere and retry.
    pub fn allocate(&mut self, size: usize, align: usize) -> (r: Result<usize, AllocError>)
        requires
            old(self).is_init(),
            old(self).inv(),
            is_pow2(align as int),
            align as int <= old(self).view().max_align,
        ensures
            final(self).is_init(),
            final(self).inv(),
            final(self).view() == old(self).view().spec_alloc(size as int, align as int).0,
            (match r {
                Ok(a) => Some(a as int),
                Err(e) => None,
            }) == old(self).view().spec_alloc(size as int, align as int).1,
            size > 0 ==> (r matches Ok(a) ==> a as int % align as int == 0),
    {
        let guard = self.buddyAllocator.acquire();
        let core = self.buddyAllocator.data_mut();
        let r = core.allocate(size, align);
        self.buddyAllocator.release(guard);
        r
    }

    /// Returns the chunk at `address` to the allocator through the lock.
    /// The caller must pass the same `size` and `align` it allocated with.
    pub fn free(&mut self, address: usize, size: usize, align: usize)
        requires
            old(self).is_init(),
            old(self).inv(),
            is_pow2(align as int),
            align as int <= old(self).view().max_align,
            old(self).view().valid_dealloc(address as int, size as int, align as int),
        ensures
            final(self).is_init(),
            final(self).inv(),
            final(self).view() == old(self).view().spec_dealloc(
                address as int,
                size as int,
                align as int,
            ),
    {
        let guard = self.buddyAllocator.acquire();
        let core = self.buddyAllocator.data_mut();
        core.dealloc(address, size, align);
        self.buddyAllocator.release(guard);
    }
}

/// The kernel's fixed leaf size and maximum alignment are powers of two.
pub proof fn lemma_kernel_constants_pow2()
    ensures
        is_pow2(KERNEL_LEAF_SIZE as int),
        is_pow2(KERNEL_MAX_ALIGNMENT as int),
{
    vstd::arithmetic::power2::lemma2_to64();
    lemma_pow2(4);
    lemma_pow2(12);
    assert(pow2(4) == KERNEL_LEAF_SIZE && pow2(12) == KERNEL_MAX_ALIGNMENT);
    is_pow2_equiv(KERNEL_LEAF_SIZE as int);
    is_pow2_equiv(KERNEL_MAX_ALIGNMENT as int);
}

} // verus!
