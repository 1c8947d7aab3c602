//! Page table entries and the page table itself, as the virtual-memory
//! layer sees them. The table is a client of the physical allocator, not
//! part of it: only the entry encoding — bit-exact — is specified here.

use vstd::prelude::*;

verus! {

/// The meaning of each flag bit of a page table entry.
pub enum BitMasks {
    MAKE_VALID,
    MAKE_READABLE,
    MAKE_WRITABLE,
    MAKE_EXECUTABLE,
    MAKE_USERSPACE_ACCESSIBLE,
}

impl BitMasks {
    /// The single-bit mask this flag occupies in an entry.
    pub open spec fn spec_mask(&self) -> usize {
        match self {
            BitMasks::MAKE_VALID => 1,
            BitMasks::MAKE_READABLE => 2,
            BitMasks::MAKE_WRITABLE => 4,
            BitMasks::MAKE_EXECUTABLE => 8,
            BitMasks::MAKE_USERSPACE_ACCESSIBLE => 16,
        }
    }

    pub fn mask(&self) -> (r: usize)
        ensures
            r == self.spec_mask(),
    {
        match self {
            BitMasks::MAKE_VALID => 1,
            BitMasks::MAKE_READABLE => 2,
            BitMasks::MAKE_WRITABLE => 4,
            BitMasks::MAKE_EXECUTABLE => 8,
            BitMasks::MAKE_USERSPACE_ACCESSIBLE => 16,
        }
    }
}

/// One page table entry: a physical page number in bits 10.., flag bits
/// below.
#[derive(Clone, Copy)]
pub struct PageTableEntry(pub usize);

impl PageTableEntry {
    /// Whether the entry is valid, by checking the V bit.
    pub fn isValid(&self) -> (r: bool)
        ensures
            r == ((self.0 & 1) > 0),
    {
        (self.0 & BitMasks::MAKE_VALID.mask()) > 0
    }

    /// The physical address of the page this entry points to.
    pub fn toPhysicalAddress(&self) -> (r: usize)
        ensures
            r == (self.0 >> 10usize) << 12usize,
    {
        (self.0 >> 10) << 12
    }

    /// Makes the entry point at the page holding the given physical
    /// address, with the given flag bits. The V bit is turned on regardless
    /// of the flags passed.
    pub fn setPhysicalAddress(&mut self, physicalAddress: usize, bitFlags: usize)
        ensures
            final(self).0 == ((physicalAddress >> 12usize) << 10usize) | bitFlags | 1usize,
            final(self).0 & 1 == 1,
    {
        self.0 = ((physicalAddress >> 12) << 10) | bitFlags | 1;
        proof {
            let pa = physicalAddress;
            let f = bitFlags;
            assert((((pa >> 12usize) << 10usize) | f | 1usize) & 1usize == 1usize)
                by (bit_vector);
        }
    }
}

/// Number of entries in one page table: it spans exactly one page.
pub const TOTAL_PAGE_COUNT: usize = 512;

/// One level of the three-level page table: a page-sized array of entries.
pub struct PageTable {
    pub entries: [PageTableEntry; 512],
}

impl PageTable {
    /// A table with every entry zeroed, i.e. nothing mapped.
    pub fn empty() -> (r: Self)
        ensures
            forall|i: int| 0 <= i < 512 ==> (#[trigger] r.entries[i]).0 == 0,
    {
        PageTable { entries: [PageTableEntry(0); 512] }
    }
}

} // verus!
