//! Runtime checks of the buddy allocator core and the facade: splitting,
//! coalescing, exhaustion, alignment and round trips on concrete regions.

use arno::allocator::ArnoAllocator;
use arno::buddy::{AllocError, BuddyAllocator};

/// A fresh allocator over the effective region `[4096, 4096 + bytes)`,
/// with 16-byte leaves and 4096-byte maximum alignment.
fn small_allocator(bytes: usize) -> BuddyAllocator {
    let mut b = BuddyAllocator::new();
    b.init(4096, 4096 + bytes, 16, 4096);
    b
}

/// The free-list lengths of every class, bottom class first.
fn free_counts(b: &BuddyAllocator) -> Vec<usize> {
    let mut counts = Vec::new();
    let mut k = 0;
    while k < b.getChunkClassesCount() {
        counts.push(b.getFreeChunkCount(k));
        k += 1;
    }
    counts
}

#[test]
fn init_seeds_single_top_chunk() {
    // 128 bytes of 16-byte leaves: classes of 16/32/64/128 bytes.
    let b = small_allocator(128);
    assert_eq!(b.getChunkClassesCount(), 4);
    assert_eq!(free_counts(&b), vec![0, 0, 0, 1]);
    assert_eq!(b.getChunkClassSize(0), 8);
    assert_eq!(b.getChunkClassSize(3), 1);
    assert_eq!(b.getChunkSize(0), 16);
    assert_eq!(b.getChunkSize(3), 128);
    assert_eq!(b.getChunkAddress(0, 3), 4096 + 48);
    assert_eq!(b.getChunkIndexInChunkClassFromAddress(4096 + 48, 0), 3);
}

#[test]
fn scenario_two_leaves_free_both_restores_whole_region() {
    // leafSize = 16, maxAlignment = 4096, 128-byte region: two 16-byte
    // allocations land on the region start and 16 bytes above it; freeing
    // both merges everything back into the single 128-byte chunk.
    let mut b = small_allocator(128);
    let r = b.allocate(16, 16).unwrap();
    assert_eq!(r, 4096);
    let r2 = b.allocate(16, 16).unwrap();
    assert_eq!(r2, 4096 + 16);
    b.dealloc(r, 16, 16);
    b.dealloc(r2, 16, 16);
    assert_eq!(free_counts(&b), vec![0, 0, 0, 1]);
}

#[test]
fn coalescing_merges_in_either_order() {
    // Free the two buddies in the opposite order: same merged result.
    let mut b = small_allocator(128);
    let r = b.allocate(16, 16).unwrap();
    let r2 = b.allocate(16, 16).unwrap();
    b.dealloc(r2, 16, 16);
    b.dealloc(r, 16, 16);
    assert_eq!(free_counts(&b), vec![0, 0, 0, 1]);
}

#[test]
fn coalescing_stops_at_allocated_buddy() {
    // 64-byte region: classes 16/32/64. With the upper 32-byte chunk still
    // allocated, freeing the two 16-byte buddies leaves one merged 32-byte
    // chunk, not two 16-byte entries.
    let mut b = small_allocator(64);
    let a0 = b.allocate(16, 16).unwrap();
    let a1 = b.allocate(16, 16).unwrap();
    let a2 = b.allocate(32, 16).unwrap();
    assert_eq!(a0, 4096);
    assert_eq!(a1, 4096 + 16);
    assert_eq!(a2, 4096 + 32);
    assert_eq!(free_counts(&b), vec![0, 0, 0]);
    b.dealloc(a0, 16, 16);
    b.dealloc(a1, 16, 16);
    assert_eq!(free_counts(&b), vec![0, 1, 0]);
    b.dealloc(a2, 32, 16);
    assert_eq!(free_counts(&b), vec![0, 0, 1]);
}

#[test]
fn exhaustion_boundary_full_region_allocates_exactly_once() {
    let mut b = small_allocator(128);
    let whole = b.allocate(128, 16).unwrap();
    assert_eq!(whole, 4096);
    assert_eq!(b.allocate(128, 16), Err(AllocError::OutOfMemory));
    assert_eq!(b.allocate(16, 16), Err(AllocError::OutOfMemory));
    b.dealloc(whole, 128, 16);
    assert_eq!(b.allocate(128, 16), Ok(4096));
}

#[test]
fn oversized_request_reports_out_of_memory() {
    let mut b = small_allocator(128);
    assert_eq!(b.allocate(129, 16), Err(AllocError::OutOfMemory));
    assert_eq!(b.allocate(1 << 30, 16), Err(AllocError::OutOfMemory));
    // The failed requests left the allocator untouched.
    assert_eq!(free_counts(&b), vec![0, 0, 0, 1]);
}

#[test]
fn zero_size_allocation_is_a_no_op() {
    let mut b = small_allocator(128);
    assert_eq!(b.allocate(0, 16), Ok(0));
    assert_eq!(free_counts(&b), vec![0, 0, 0, 1]);
}

#[test]
fn round_trip_restores_state_and_address() {
    let mut b = small_allocator(128);
    let before = free_counts(&b);
    let a = b.allocate(32, 16).unwrap();
    b.dealloc(a, 32, 16);
    assert_eq!(free_counts(&b), before);
    // The same request is served from the same chunk again.
    assert_eq!(b.allocate(32, 16), Ok(a));
}

#[test]
fn addresses_are_aligned_and_disjoint() {
    // 8 KiB region: plenty of classes to split through.
    let mut b = small_allocator(8192);
    let a = b.allocate(100, 64).unwrap();
    assert_eq!(a % 64, 0);
    let c = b.allocate(4096, 4096).unwrap();
    assert_eq!(c % 4096, 0);
    let d = b.allocate(1, 1).unwrap();
    // Live chunks never overlap: the 100-byte allocation was rounded to a
    // 128-byte chunk, the 1-byte one to a 16-byte chunk.
    assert!(a + 128 <= c || c + 4096 <= a);
    assert!(a + 128 <= d || d + 16 <= a);
    assert!(c + 4096 <= d || d + 16 <= c);
}

#[test]
fn rounding_of_rough_region_bounds() {
    // Unaligned raw bounds: the start rounds up to the next 4096-byte
    // boundary, the end rounds down to a leaf multiple.
    let mut b = BuddyAllocator::new();
    b.init(4097, 12400, 16, 4096);
    // Effective region [8192, 12400): 263 leaves, so a 4096-byte managed
    // span of 256 leaves across 9 classes.
    assert_eq!(b.getChunkClassesCount(), 9);
    assert_eq!(b.getChunkSize(8), 4096);
    let whole = b.allocate(4096, 4096).unwrap();
    assert_eq!(whole, 8192);
    assert_eq!(b.allocate(16, 16), Err(AllocError::OutOfMemory));
}

#[test]
fn splitting_walks_down_and_reuses_freed_siblings() {
    let mut b = small_allocator(128);
    let a0 = b.allocate(16, 16).unwrap();
    // One split per level: 64-, 32- and 16-byte siblings are now free.
    assert_eq!(free_counts(&b), vec![1, 1, 1, 0]);
    let a1 = b.allocate(64, 16).unwrap();
    assert_eq!(a1, 4096 + 64);
    assert_eq!(free_counts(&b), vec![1, 1, 0, 0]);
    b.dealloc(a1, 64, 16);
    b.dealloc(a0, 16, 16);
    assert_eq!(free_counts(&b), vec![0, 0, 0, 1]);
}

#[test]
fn facade_allocates_and_frees_through_the_lock() {
    let mut kernel_allocator = ArnoAllocator::new();
    // The loaded kernel image ends at 5000; physical memory ends at 12288.
    kernel_allocator.init(5000, 12288);
    // The effective region starts at the next 4096-byte boundary.
    let a = kernel_allocator.allocate(64, 16).unwrap();
    assert_eq!(a, 8192);
    assert_eq!(a % 16, 0);
    kernel_allocator.free(a, 64, 16);
    assert_eq!(kernel_allocator.allocate(64, 16), Ok(a));
}

#[test]
fn facade_zero_size_and_exhaustion() {
    let mut kernel_allocator = ArnoAllocator::new();
    kernel_allocator.init(5000, 12288);
    assert_eq!(kernel_allocator.allocate(0, 1), Ok(0));
    // The managed span is 4096 bytes.
    let whole = kernel_allocator.allocate(4096, 4096).unwrap();
    assert_eq!(whole, 8192);
    assert_eq!(kernel_allocator.allocate(1, 1), Err(AllocError::OutOfMemory));
}

#[test]
fn coalescing_removes_buddy_from_middle_of_free_list() {
    let mut b = small_allocator(128);
    let a0 = b.allocate(16, 16).unwrap();
    let a1 = b.allocate(16, 16).unwrap();
    let a2 = b.allocate(32, 16).unwrap();
    let a3 = b.allocate(16, 16).unwrap();
    assert_eq!((a0, a1, a2, a3), (4096, 4112, 4128, 4160));
    // Freeing the first leaf leaves two entries on the leaf free list, the
    // sibling of `a3` in front of it.
    b.dealloc(a0, 16, 16);
    assert_eq!(free_counts(&b), vec![2, 1, 0, 0]);
    // Freeing `a3` merges with that sibling — taken from the middle of the
    // list — and cascades one class further.
    b.dealloc(a3, 16, 16);
    assert_eq!(free_counts(&b), vec![1, 0, 1, 0]);
    // The surviving leaf entry is the chunk freed first.
    assert_eq!(b.allocate(16, 16), Ok(a0));
}

#[test]
fn minimal_region_of_two_leaves() {
    let mut b = small_allocator(32);
    assert_eq!(b.getChunkClassesCount(), 2);
    let a0 = b.allocate(16, 16).unwrap();
    let a1 = b.allocate(16, 16).unwrap();
    assert_eq!((a0, a1), (4096, 4112));
    assert_eq!(b.allocate(16, 16), Err(AllocError::OutOfMemory));
    b.dealloc(a0, 16, 16);
    b.dealloc(a1, 16, 16);
    assert_eq!(free_counts(&b), vec![0, 1]);
}
