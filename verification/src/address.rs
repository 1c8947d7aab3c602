//! Physical and virtual addresses, and the operations the memory subsystem
//! performs on them.

use vstd::prelude::*;

verus! {

/// Size in bytes of one page of physical memory.
pub const PAGE_SIZE: usize = 4096;

/// Behaviour common to physical and virtual addresses: each is a plain
/// machine word.
pub trait Address: Sized {
    /// The numeric value of the address.
    spec fn value(&self) -> usize;

    fn new(value: usize) -> (r: Self)
        ensures
            r.value() == value,
    ;

    fn asUsize(&self) -> (r: usize)
        ensures
            r == self.value(),
    ;

    fn asUsizeRef(&self) -> (r: &usize)
        ensures
            *r == self.value(),
    ;

    fn asUsizeMutRef(&mut self) -> (r: &mut usize)
        ensures
            *r == old(self).value(),
            final(self).value() == *final(r),
    ;

    /// Increases this address by the size of a page.
    fn increaseByAPage(&mut self)
        requires
            old(self).value() + PAGE_SIZE <= usize::MAX,
        ensures
            final(self).value() == old(self).value() + PAGE_SIZE,
    {
        let v = self.asUsizeMutRef();
        *v = *v + PAGE_SIZE;
    }
}

/// An address in physical memory.
pub struct PhysicalAddress(pub usize);

impl Address for PhysicalAddress {
    open spec fn value(&self) -> usize {
        self.0
    }

    fn new(value: usize) -> (r: Self) {
        PhysicalAddress(value)
    }

    fn asUsize(&self) -> (r: usize) {
        self.0
    }

    fn asUsizeRef(&self) -> (r: &usize) {
        &self.0
    }

    fn asUsizeMutRef(&mut self) -> (r: &mut usize) {
        &mut self.0
    }
}

/// A virtual address, translated to a physical address through a three-level
/// page table: bits 12.. hold one nine-bit page number per level.
#[derive(PartialEq, Copy, Clone)]
pub struct VirtualAddress(pub usize);

impl Address for VirtualAddress {
    open spec fn value(&self) -> usize {
        self.0
    }

    fn new(value: usize) -> (r: Self) {
        VirtualAddress(value)
    }

    fn asUsize(&self) -> (r: usize) {
        self.0
    }

    fn asUsizeRef(&self) -> (r: &usize) {
        &self.0
    }

    fn asUsizeMutRef(&mut self) -> (r: &mut usize) {
        &mut self.0
    }
}

/// Number of low bits holding the offset within a page.
pub const PAGE_OFFSET_BIT_COUNT: usize = 12;

/// Number of bits holding one level's page number.
pub const PAGE_NUMBER_BIT_COUNT: usize = 9;

/// Mask extracting one level's page number.
pub const PAGE_NUMBER_EXTRACTOR_BIT_MASK: usize = 0x1FF;

impl VirtualAddress {
    /// Returns the page number this address carries for the given page
    /// table level: the nine bits starting at bit `12 + level * 9`. At
    /// level zero it selects the leaf entry; higher levels select the entry
    /// pointing at the next level's table.
    pub fn getCorrespondingPPN(&self, pageTableLevel: usize) -> (r: usize)
        requires
            pageTableLevel <= 2,
        ensures
            r == (self.0 >> ((PAGE_OFFSET_BIT_COUNT + pageTableLevel
                * PAGE_NUMBER_BIT_COUNT) as usize)) & (PAGE_NUMBER_EXTRACTOR_BIT_MASK as usize),
            r <= PAGE_NUMBER_EXTRACTOR_BIT_MASK,
    {
        let shift = PAGE_OFFSET_BIT_COUNT + pageTableLevel * PAGE_NUMBER_BIT_COUNT;
        let r = (self.0 >> shift) & PAGE_NUMBER_EXTRACTOR_BIT_MASK;
        proof {
            let x = self.0;
            let s = shift;
            assert((x >> s) & 0x1FFusize <= 0x1FFusize) by (bit_vector);
        }
        r
    }
}

} // verus!
