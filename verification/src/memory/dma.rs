use vstd::prelude::*;

use super::{PhysicalAddress, VirtualAddress, PAGE_SIZE};

verus! {

/// The number of pages that hold `size` bytes.
pub open spec fn pages_for(size: nat) -> nat {
    ((size + PAGE_SIZE - 1) / PAGE_SIZE as int) as nat
}

/// Memory that a device reads and writes directly: the pages are mapped at `virt`, and the
/// device sees them at `phys`.
pub struct Dma {
    phys: PhysicalAddress,
    page_count: usize,
    virt: VirtualAddress,
}

impl Dma {
    /// How many pages a buffer of `size` bytes takes.
    pub fn page_count_for(size: usize) -> (r: usize)
        ensures
            r == pages_for(size as nat),
    {
        size / PAGE_SIZE + if size % PAGE_SIZE == 0 { 0 } else { 1 }
    }

    /// The buffer of `size` bytes whose pages were mapped at `virt`, which is the physical
    /// address `phys`.
    pub fn new(size: usize, virt: VirtualAddress, phys: PhysicalAddress) -> (r: Self)
        ensures
            r.phys_spec()@ == phys@,
            r.virt_spec()@ == virt@,
            r.page_count_spec() == pages_for(size as nat),
    {
        Dma { phys, page_count: Self::page_count_for(size), virt }
    }

    pub closed spec fn phys_spec(&self) -> PhysicalAddress {
        self.phys
    }

    pub closed spec fn virt_spec(&self) -> VirtualAddress {
        self.virt
    }

    pub closed spec fn page_count_spec(&self) -> nat {
        self.page_count as nat
    }

    pub fn phys(&self) -> (r: PhysicalAddress)
        ensures
            r@ == self.phys_spec()@,
    {
        self.phys.copy()
    }

    /// Where the buffer is mapped.
    pub fn ptr(&self) -> (r: VirtualAddress)
        ensures
            r@ == self.virt_spec()@,
    {
        self.virt.copy()
    }

    /// The pages to unmap and free once the buffer is no longer used.
    pub fn page_count(&self) -> (r: usize)
        ensures
            r == self.page_count_spec(),
    {
        self.page_count
    }
}

} // verus!
