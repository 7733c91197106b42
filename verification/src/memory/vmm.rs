use vstd::prelude::*;

use super::address::{Address, Physical, PhysicalAddress, VirtualAddress};
use super::mmu::lemma_clear_present;
use super::page_allocator::{lemma_room_after, lemma_took_more, lemma_took_none, lemma_took_trans, took_at_most, PageAllocator};
use super::tables::{
    find_table, keeps_taken, lemma_in_use_taken, spans_free, page_frame, lemma_table_at_frame, lemma_index_bound,
    lemma_set_entry_wf, ENTRIES, lemma_later_slot, map_budget, pages_free, slot_taken, top_blocked, in_half,
    allocations_kept, entry, entry_span, find_free_spec, lemma_grows_trans, lemma_chunk_phys, lemma_kept_trans,
    lemma_removes_trans, lemma_stop_chain, lemma_table_at_errors, grows, keeps_mapped, keeps_other_slots, map_level, maps_pages,
    maps_slot, offset_in, only_removes, owned, pages_unmapped, present, same_translation, set_entry, slot_unmapped,
    space_wf, table_at, tables_wf, target, translate, va_index, Mmu, TablesView, VirtualAddressSpace,
};
use super::constants::{INVALID_VIRT_ADDRESS_END, INVALID_VIRT_ADDRESS_START};
use super::free_space::{in_use_at, window_used};
use super::frame::same_slot;
use super::constants::{
    KERNEL_HEAP_END, KERNEL_HEAP_START, LOW_ADDR_SPACE_END, LOW_ADDR_SPACE_START,
    MODULES_SPACE_END, MODULES_SPACE_START, PAGE_SIZE, USER_SPACE_END, USER_SPACE_START,
};
use crate::error::{Error, MemoryError};

verus! {

/// The size of one mapping.
#[derive(PartialEq, Eq, Structural, Clone, Copy, Debug)]
pub enum MapSize {
    Size4KB,
    Size2MB,
    Size1GB,
}

/// The bits of a `MapFlags`:
/// bit[7]: remap (force remap and doesn't return AlreadyMapped)
/// bits[6:4]: AttrIndx
/// bits[3:2]: shareability
/// bit[1]: EL0_access
/// bit[0]: RO
pub open spec fn map_flags_bits(
    read_only: bool,
    el0_access: bool,
    shareability: u8,
    attr_indx: u8,
    remap: bool,
) -> u8 {
    (if read_only {
        1u8
    } else {
        0u8
    }) | (if el0_access {
        2u8
    } else {
        0u8
    }) | (shareability << 2u8) | (attr_indx << 4u8) | (if remap {
        0x80u8
    } else {
        0u8
    })
}

/// Flags of a mapping, packed in one byte.
#[derive(Clone, Copy, Debug)]
pub struct MapFlags(pub u8);

impl MapFlags {
    pub fn new(read_only: bool, el0_access: bool, shareability: u8, attr_indx: u8, remap: bool) -> (r: Self)
        requires
            shareability & 0b11 == shareability,
            attr_indx & 0b111 == attr_indx,
        ensures
            r.0 == map_flags_bits(read_only, el0_access, shareability, attr_indx, remap),
    {
        let ro: u8 = if read_only {
            1
        } else {
            0
        };
        let el0: u8 = if el0_access {
            2
        } else {
            0
        };
        let rm: u8 = if remap {
            0x80
        } else {
            0
        };
        Self(ro | el0 | (shareability << 2u8) | (attr_indx << 4u8) | rm)
    }

    /// Read-write or read-only flags, inner shareable, attribute index 1, no EL0 access.
    pub fn default_rw(read_only: bool) -> (r: Self)
        ensures
            r.0 == map_flags_bits(read_only, false, 0b11, 1, false),
    {
        assert(0b11u8 & 0b11u8 == 0b11u8 && 1u8 & 0b111u8 == 1u8) by (bit_vector);
        Self::new(read_only, false, 0b11, 1, false)
    }

    pub fn force_remap(self) -> (r: bool)
        ensures
            r == (self.0 & 0x80 != 0),
    {
        self.0 & 0b10000000 != 0
    }

    pub fn attr_index(self) -> (r: u8)
        ensures
            r == (self.0 & 0x70) >> 4u8,
    {
        (self.0 & 0b01110000) >> 4u8
    }

    pub fn shareability(self) -> (r: u8)
        ensures
            r == (self.0 & 0x0C) >> 2u8,
    {
        (self.0 & 0b00001100) >> 2u8
    }

    pub fn el0_access(self) -> (r: bool)
        ensures
            r == (self.0 & 2 != 0),
    {
        self.0 & 0b00000010 != 0
    }

    pub fn read_only(self) -> (r: bool)
        ensures
            r == (self.0 & 1 != 0),
    {
        self.0 & 0b00000001 != 0
    }
}

impl Default for MapFlags {
    /// remap: 0 AttrIndx: 1 shareability: 11 EL0_access: 0 RO: 0
    fn default() -> (r: Self)
        ensures
            r.0 == 0b00011100,
            r.0 & 0x80 == 0,
    {
        assert(0b00011100u8 & 0x80u8 == 0u8) by (bit_vector);
        Self(0b00011100)
    }
}

/// Each field given to `MapFlags::new` is read back unchanged by its accessor.
pub proof fn lemma_map_flags_roundtrip(
    read_only: bool,
    el0_access: bool,
    shareability: u8,
    attr_indx: u8,
    remap: bool,
)
    requires
        shareability & 0b11 == shareability,
        attr_indx & 0b111 == attr_indx,
    ensures
        ({
            let b = map_flags_bits(read_only, el0_access, shareability, attr_indx, remap);
            &&& (b & 1 != 0) == read_only
            &&& (b & 2 != 0) == el0_access
            &&& (b & 0x0C) >> 2u8 == shareability
            &&& (b & 0x70) >> 4u8 == attr_indx
            &&& (b & 0x80 != 0) == remap
        }),
{
    let ro: u8 = if read_only {
        1
    } else {
        0
    };
    let el0: u8 = if el0_access {
        2
    } else {
        0
    };
    let rm: u8 = if remap {
        0x80
    } else {
        0
    };
    assert({
        let b = ro | el0 | (shareability << 2u8) | (attr_indx << 4u8) | rm;
        &&& (b & 1 != 0) == (ro == 1)
        &&& (b & 2 != 0) == (el0 == 2)
        &&& (b & 0x0C) >> 2u8 == shareability
        &&& (b & 0x70) >> 4u8 == attr_indx
        &&& (b & 0x80 != 0) == (rm == 0x80)
    }) by (bit_vector)
        requires
            ro == 0 || ro == 1,
            el0 == 0 || el0 == 2,
            rm == 0 || rm == 0x80,
            shareability & 0b11 == shareability,
            attr_indx & 0b111 == attr_indx,
    ;
}

/// How a page is mapped: its size and flags.
#[derive(Clone, Copy, Debug)]
pub struct MapOptions {
    pub size: MapSize,
    pub flags: MapFlags,
}

impl MapOptions {
    pub fn new(size: MapSize, flags: MapFlags) -> (r: Self)
        ensures
            r.size == size,
            r.flags == flags,
    {
        Self { size, flags }
    }

    /// A 4 KB mapping with the default flags.
    pub fn default_4k() -> (r: Self)
        ensures
            r.size == MapSize::Size4KB,
            r.flags.0 == 0b00011100,
            r.flags.0 & 0x80 == 0,
    {
        Self { size: MapSize::Size4KB, flags: MapFlags::default() }
    }

    /// A mapping of `size` with the default flags.
    pub fn default_size(size: MapSize) -> (r: Self)
        ensures
            r.size == size,
            r.flags.0 == 0b00011100,
    {
        Self { size, flags: MapFlags::default() }
    }
}

/// What virtual memory is used for.
#[derive(PartialEq, Eq, Structural, Clone, Copy, Debug)]
pub enum MemoryUsage {
    KernelHeap,
    ModuleSpace,
    UserData,
}

/// Memory of `usage` lives in the low address space.
pub open spec fn usage_is_low_spec(usage: MemoryUsage) -> bool {
    usage == MemoryUsage::UserData
}

/// Whether memory of `usage` lives in the low address space.
pub fn usage_is_low(usage: MemoryUsage) -> (r: bool)
    ensures
        r == usage_is_low_spec(usage),
{
    match usage {
        MemoryUsage::KernelHeap => false,
        MemoryUsage::ModuleSpace => false,
        MemoryUsage::UserData => true,
    }
}

/// The virtual range searched for free pages of `usage` (module space is bump allocated).
pub fn usage_range(usage: MemoryUsage) -> (r: (u64, u64))
    requires
        usage != MemoryUsage::ModuleSpace,
    ensures
        usage == MemoryUsage::KernelHeap ==> r == (KERNEL_HEAP_START, KERNEL_HEAP_END),
        usage == MemoryUsage::UserData ==> r == (USER_SPACE_START, USER_SPACE_END),
{
    match usage {
        MemoryUsage::KernelHeap => (KERNEL_HEAP_START, KERNEL_HEAP_END),
        _ => (USER_SPACE_START, USER_SPACE_END),
    }
}

/// Whether `addr` lies in the low address space.
pub open spec fn in_low_addr_space(addr: u64) -> bool {
    LOW_ADDR_SPACE_START <= addr < LOW_ADDR_SPACE_END
}

/// `Ok` when an address space that is (or is not) the low one may map or unmap `addr`.
pub fn check_addr_space(addr: VirtualAddress, addr_space_is_low: bool) -> (r: Result<(), Error>)
    ensures
        r is Ok <==> in_low_addr_space(addr@) == addr_space_is_low,
        r matches Err(e) ==> e == Error::Memory(MemoryError::InvalidAddrSpace),
{
    let a = addr.addr();
    let is_low = a >= LOW_ADDR_SPACE_START && a < LOW_ADDR_SPACE_END;
    if addr_space_is_low != is_low {
        Err(Error::Memory(MemoryError::InvalidAddrSpace))
    } else {
        Ok(())
    }
}

/// The bump allocator of the modules space: each request takes the next pages.
pub struct ModuleSpace {
    next: u64,
}

impl ModuleSpace {
    pub closed spec fn next(&self) -> u64 {
        self.next
    }

    pub fn new() -> (r: Self)
        ensures
            r.next() == MODULES_SPACE_START,
    {
        Self { next: MODULES_SPACE_START }
    }

    /// Reserve `count` pages. The cursor moves forward even when the request does not fit
    /// (then `OutOfVirtualSpace` is returned).
    pub fn find_free_pages(&mut self, count: usize) -> (r: Result<VirtualAddress, Error>)
        requires
            old(self).next() >= MODULES_SPACE_START,
            old(self).next() + count * PAGE_SIZE <= u64::MAX,
        ensures
            final(self).next() >= MODULES_SPACE_START,
            final(self).next() == old(self).next() + count * PAGE_SIZE,
            match r {
                Ok(a) => a@ == old(self).next() && old(self).next() + count * PAGE_SIZE
                    < MODULES_SPACE_END,
                Err(e) => e == Error::Memory(MemoryError::OutOfVirtualSpace) && old(self).next()
                    + count * PAGE_SIZE >= MODULES_SPACE_END,
            },
    {
        let addr = self.next;
        let size = (count as u64) * (PAGE_SIZE as u64);
        self.next = addr + size;
        if addr + size >= MODULES_SPACE_END {
            return Err(Error::Memory(MemoryError::OutOfVirtualSpace));
        }
        Ok(VirtualAddress::new(addr))
    }
}


/// The page at `x` of `sp` in `v` is mapped to a physical page that `p1` hands out and `p0`
/// did not.
pub open spec fn page_backed<P: PageAllocator<Physical>>(
    p0: P,
    p1: P,
    v: TablesView,
    sp: VirtualAddressSpace,
    x: u64,
) -> bool {
    exists|p: u64|
        #![trigger p1.allocated(p)]
        !p0.allocated(p) && p1.allocated(p) && translate(v, sp, x) == Some(target(p) as int)
}

/// The first and the end address searched for free pages of `usage` (not the modules space).
pub open spec fn usage_bounds(usage: MemoryUsage) -> (u64, u64) {
    if usage == MemoryUsage::KernelHeap {
        (KERNEL_HEAP_START, KERNEL_HEAP_END)
    } else {
        (USER_SPACE_START, USER_SPACE_END)
    }
}

/// The virtual memory manager: the translation tables of the address spaces, the allocator of
/// the physical pages that they and the memory they map take, and the modules space.
pub struct VirtualMemoryManager<P: PageAllocator<Physical>> {
    physical: P,
    mmu: Mmu,
    modules: ModuleSpace,
}

/// The physical page at `ptr` may be given back to `pages` once nothing maps it: `pages`
/// manages it and no translation table of `v` lies in it.
pub open spec fn freeable<P: PageAllocator<Physical>>(v: TablesView, pages: P, ptr: PhysicalAddress) -> bool {
    &&& pages.can_dealloc(ptr, 1)
    &&& ptr@ + 0x1000 <= u64::MAX
    &&& !(exists|k: int| 0 <= k < v.addrs.len() && ptr@ <= #[trigger] v.addrs[k] < ptr@ + 0x1000)
}

/// `y` lies in the physical page that the page at `x` maps in `v`, and that page may be
/// given back to `pages` (see `freeable`).
pub open spec fn frees_frame<P: PageAllocator<Physical>>(
    v: TablesView,
    pages: P,
    sp: VirtualAddressSpace,
    x: u64,
    ptr: PhysicalAddress,
    y: u64,
) -> bool {
    &&& page_frame(v, sp, x) == Some(ptr@)
    &&& freeable(v, pages, ptr)
    &&& ptr@ <= y < ptr@ + 0x1000
}

impl<P: PageAllocator<Physical>> VirtualMemoryManager<P> {
    pub closed spec fn tables(&self) -> TablesView {
        self.mmu@
    }

    pub closed spec fn pages(&self) -> P {
        self.physical
    }

    pub closed spec fn modules_next(&self) -> u64 {
        self.modules.next()
    }

    /// Where the next allocation in the modules space starts.
    pub fn modules_cursor(&self) -> (r: u64)
        ensures
            r == self.modules_next(),
    {
        self.modules.next
    }

    /// The tables are well formed, their pages come from the page allocator, which is
    /// consistent, and the modules space cursor is in that space.
    pub open spec fn wf(&self) -> bool {
        &&& tables_wf(self.tables())
        &&& owned(self.tables(), self.pages())
        &&& self.pages().inv()
        &&& self.modules_next() >= MODULES_SPACE_START
        &&& self.modules_next() % PAGE_SIZE as u64 == 0
    }

    pub fn new(physical: P) -> (r: Self)
        requires
            physical.inv(),
        ensures
            r.wf(),
            r.tables().addrs.len() == 0,
            r.pages() == physical,
            r.modules_next() == MODULES_SPACE_START,
    {
        let r = Self { physical, mmu: Mmu::new(), modules: ModuleSpace::new() };
        assert(0xFFFF_FFFF_0000_0000u64 % 0x1000 == 0) by (nonlinear_arith);
        r
    }

    /// A new address space, low (user) or high (kernel), with an empty first table; `None` if
    /// no page can be had for it.
    pub fn create_addr_space(&mut self, is_low: bool) -> (r: Option<VirtualAddressSpace>)
        requires
            old(self).wf(),
        ensures
            final(self).wf(),
            grows(old(self).tables(), final(self).tables()),
            allocations_kept(old(self).pages(), final(self).pages()),
            final(self).modules_next() == old(self).modules_next(),
            r is Some <==> old(self).pages().has_room(1),
            match r {
                Some(sp) => {
                    &&& sp.is_low == is_low
                    &&& space_wf(final(self).tables(), sp)
                    &&& forall|va: u64| translate(final(self).tables(), sp, va) is None
                },
                None => final(self).tables() == old(self).tables(),
            },
    {
        self.mmu.create_space(is_low, &mut self.physical)
    }

    /// Map the page (or block) at `from` to `to` in `sp` (see `Mmu::map_page`), once `from` is
    /// checked to lie in the half of the address space of `sp` (else `InvalidAddrSpace`).
    pub fn map_page(
        &mut self,
        from: VirtualAddress,
        to: PhysicalAddress,
        options: MapOptions,
        sp: VirtualAddressSpace,
    ) -> (r: Result<VirtualAddress, Error>)
        requires
            old(self).wf(),
            space_wf(old(self).tables(), sp),
            from@ % entry_span(map_level(options.size)) == 0,
            to@ % entry_span(map_level(options.size)) == 0,
        ensures
            final(self).wf(),
            space_wf(final(self).tables(), sp),
            grows(old(self).tables(), final(self).tables()),
            allocations_kept(old(self).pages(), final(self).pages()),
            final(self).modules_next() == old(self).modules_next(),
            in_low_addr_space(from@) != sp.is_low ==> r == Err::<VirtualAddress, Error>(
                Error::Memory(MemoryError::InvalidAddrSpace),
            ) && final(self).tables() == old(self).tables(),
            in_low_addr_space(from@) == sp.is_low ==> ({
                let v = old(self).tables();
                let w = final(self).tables();
                let lv = map_level(options.size) as int;
                let keep = options.flags.0 & 0x80 == 0;
                &&& (r matches Ok(a) ==> a@ == from@ && maps_slot(w, sp, from@, to@, lv))
                &&& keep && translate(v, sp, from@) is Some ==> r == Err::<VirtualAddress, Error>(
                    Error::Memory(MemoryError::AlreadyMapped),
                )
                &&& keep ==> keeps_other_slots(v, w, sp, from@, lv)
                &&& keep && r is Ok ==> slot_unmapped(v, sp, from@, lv)
                &&& keep && r is Err ==> same_translation(v, w, sp)
                &&& (r matches Err(e) ==> e == Error::Memory(MemoryError::AlreadyMapped) || e
                    == Error::Memory(MemoryError::OutOfPhysicalMemory))
                &&& (r matches Err(e) && e == Error::Memory(MemoryError::AlreadyMapped) ==> slot_taken(
                    v,
                    sp,
                    from@,
                    lv,
                ) && (keep || top_blocked(v, sp, from@)))
                &&& (r matches Err(e) && e == Error::Memory(MemoryError::OutOfPhysicalMemory)
                    ==> !old(self).pages().has_room(map_budget(options.size)))
                &&& ((if keep {
                    !slot_taken(v, sp, from@, lv)
                } else {
                    !top_blocked(v, sp, from@)
                }) && old(self).pages().has_room(map_budget(options.size)) ==> r is Ok)
                &&& (keep && r is Ok ==> keeps_taken(v, w, sp, from@, lv))
            }),
            took_at_most(old(self).pages(), final(self).pages(), map_budget(options.size) as nat),
    {
        proof {
            lemma_took_none(self.physical);
            lemma_took_more(self.physical, self.physical, 0, map_budget(options.size) as nat);
        }
        check_addr_space(from.copy(), sp.is_low)?;
        self.mmu.map_page(from, to, options, sp, &mut self.physical)
    }

    /// Unmap the page (or block) of `size` at `addr` in `sp` (see `Mmu::unmap`), once `addr` is
    /// checked to lie in the half of the address space of `sp` (else `InvalidAddrSpace`).
    pub fn unmap_page(&mut self, addr: VirtualAddress, size: MapSize, sp: VirtualAddressSpace) -> (r:
        Result<PhysicalAddress, Error>)
        requires
            old(self).wf(),
            space_wf(old(self).tables(), sp),
        ensures
            final(self).wf(),
            space_wf(final(self).tables(), sp),
            final(self).pages() == old(self).pages(),
            final(self).modules_next() == old(self).modules_next(),
            grows(old(self).tables(), final(self).tables()),
            only_removes(old(self).tables(), final(self).tables(), sp),
            in_low_addr_space(addr@) != sp.is_low ==> r == Err::<PhysicalAddress, Error>(
                Error::Memory(MemoryError::InvalidAddrSpace),
            ) && final(self).tables() == old(self).tables(),
            in_low_addr_space(addr@) == sp.is_low ==> match table_at(
                old(self).tables(),
                sp,
                addr@,
                map_level(size) as int,
            ) {
                Err(x) => r == Err::<PhysicalAddress, Error>(Error::Memory(x)) && final(self).tables()
                    == old(self).tables(),
                Ok(k) => {
                    let i = va_index(addr@, map_level(size));
                    let e = entry(old(self).tables(), k, i);
                    if !present(e) {
                        r == Err::<PhysicalAddress, Error>(Error::Memory(MemoryError::NotMapped))
                            && final(self).tables() == old(self).tables()
                    } else {
                        &&& (r matches Ok(p) && p@ == target(e))
                        &&& final(self).tables() == set_entry(old(self).tables(), k, i, e & !1u64)
                    }
                },
            },
            r is Ok ==> translate(final(self).tables(), sp, addr@) is None,
            r matches Err(e) ==> e == Error::Memory(MemoryError::InvalidAddrSpace) || e == Error::Memory(
                MemoryError::NotMapped,
            ) || e == Error::Memory(MemoryError::AlreadyMapped),
    {
        check_addr_space(addr.copy(), sp.is_low)?;
        proof {
            lemma_table_at_errors(self.mmu@, sp, addr@, map_level(size) as int);
        }
        let ghost v = self.mmu@;
        let r = self.mmu.unmap(addr, size, sp);
        proof {
            assert forall|k: int| 0 <= k < self.mmu@.addrs.len() implies self.physical.allocated(
                #[trigger] self.mmu@.addrs[k],
            ) by {
                assert(self.mmu@.addrs[k] == v.addrs[k]);
            }
        }
        r
    }

    /// Allocate `count` pages for `usage` in `sp`: free virtual pages (see `find_free_pages`),
    /// each mapped as a 4 KB page with the default flags to a physical page of its own from the
    /// page allocator. The first error stops it (`OutOfPhysicalMemory` when no physical page is
    /// left); what was mapped before stays. A run of free pages that would leave the half of
    /// the address space of `sp` is `OutOfVirtualSpace`.
    pub fn alloc_pages(&mut self, count: usize, usage: MemoryUsage, sp: VirtualAddressSpace) -> (r:
        Result<VirtualAddress, Error>)
        requires
            old(self).wf(),
            space_wf(old(self).tables(), sp),
            usage == MemoryUsage::ModuleSpace ==> old(self).modules_next() + count * PAGE_SIZE
                <= u64::MAX,
            usage != MemoryUsage::ModuleSpace ==> count > 0 && count * PAGE_SIZE <= usage_bounds(
                usage,
            ).1 - usage_bounds(usage).0,
        ensures
            final(self).wf(),
            space_wf(final(self).tables(), sp),
            grows(old(self).tables(), final(self).tables()),
            allocations_kept(old(self).pages(), final(self).pages()),
            keeps_mapped(old(self).tables(), final(self).tables(), sp),
            usage_is_low_spec(usage) != sp.is_low ==> r == Err::<VirtualAddress, Error>(
                Error::Memory(MemoryError::InvalidAddrSpace),
            ),
            r matches Ok(a) ==> {
                &&& a@ % PAGE_SIZE as u64 == 0
                &&& a@ + count * PAGE_SIZE <= u64::MAX
                &&& sp.is_low ==> a@ + count * PAGE_SIZE <= LOW_ADDR_SPACE_END
                &&& !sp.is_low ==> a@ >= INVALID_VIRT_ADDRESS_END
                &&& usage == MemoryUsage::ModuleSpace ==> a@ == old(self).modules_next()
                &&& usage != MemoryUsage::ModuleSpace ==> find_free_spec(
                    old(self).tables(),
                    sp,
                    count as int,
                    usage_bounds(usage).0,
                    usage_bounds(usage).1,
                ) == Ok::<u64, MemoryError>(a@)
                &&& forall|x: u64|
                    a@ <= x < a@ + count * PAGE_SIZE && x % 0x1000 == 0 ==> #[trigger] page_backed(
                        old(self).pages(),
                        final(self).pages(),
                        final(self).tables(),
                        sp,
                        x,
                    )
            },
            r matches Err(e) ==> e == Error::Memory(MemoryError::InvalidAddrSpace) || e == Error::Memory(
                MemoryError::OutOfVirtualSpace,
            ) || e == Error::Memory(MemoryError::OutOfPhysicalMemory) || e == Error::Memory(
                MemoryError::AlreadyMapped,
            ),
            took_at_most(old(self).pages(), final(self).pages(), (6 * count) as nat),
            r matches Err(e) && e == Error::Memory(MemoryError::OutOfPhysicalMemory) ==> !(6 * count
                <= usize::MAX && old(self).pages().has_room((6 * count) as usize)),
            r matches Err(e) && e == Error::Memory(MemoryError::OutOfVirtualSpace) ==> usage_is_low_spec(usage)
                == sp.is_low && if usage == MemoryUsage::ModuleSpace {
                old(self).modules_next() + count * PAGE_SIZE >= MODULES_SPACE_END
            } else {
                find_free_spec(
                    old(self).tables(),
                    sp,
                    count as int,
                    usage_bounds(usage).0,
                    usage_bounds(usage).1,
                ) is Err
            },
            r matches Err(e) && e == Error::Memory(MemoryError::OutOfVirtualSpace) ==> final(self).tables()
                == old(self).tables(),
            r matches Err(e) && e == Error::Memory(MemoryError::InvalidAddrSpace) ==> usage_is_low_spec(usage)
                != sp.is_low,
            r matches Err(e) && e == Error::Memory(MemoryError::AlreadyMapped) ==> usage == MemoryUsage::ModuleSpace
                && !pages_free(
                old(self).tables(),
                sp,
                old(self).modules_next(),
                old(self).modules_next() + count * PAGE_SIZE,
            ),
            usage_is_low_spec(usage) == sp.is_low && (if usage == MemoryUsage::ModuleSpace {
                old(self).modules_next() + count * PAGE_SIZE < MODULES_SPACE_END && pages_free(
                    old(self).tables(),
                    sp,
                    old(self).modules_next(),
                    old(self).modules_next() + count * PAGE_SIZE,
                )
            } else {
                find_free_spec(
                    old(self).tables(),
                    sp,
                    count as int,
                    usage_bounds(usage).0,
                    usage_bounds(usage).1,
                ) is Ok
            }) && 6 * count <= usize::MAX && old(self).pages().has_room((6 * count) as usize) ==> r is Ok,
    {
        let ghost v0 = self.mmu@;
        let ghost p0 = self.physical;
        let ghost next0 = self.modules_next();
        proof {
            lemma_took_none(p0);
            lemma_took_more(p0, p0, 0, (6 * count) as nat);
        }
        let virt = self.find_free_pages(count, usage, sp)?;
        let ghost free = pages_free(v0, sp, virt@, virt@ + count * PAGE_SIZE);
        let ghost room = 6 * count <= usize::MAX && p0.has_room((6 * count) as usize);
        let base = virt.copy().addr();
        let size: u64 = (count as u64) * 4096;
        if base > u64::MAX - size {
            return Err(Error::Memory(MemoryError::OutOfVirtualSpace));
        }
        let end = base + size;
        if !((sp.is_low && end <= LOW_ADDR_SPACE_END) || (!sp.is_low && base >= INVALID_VIRT_ADDRESS_END)) {
            return Err(Error::Memory(MemoryError::OutOfVirtualSpace));
        }
        let ghost v1 = self.mmu@;
        let mut i: u64 = 0;
        proof {
            if free {
                assert forall|x: u64| base <= x < end && x % 0x1000 == 0 implies !#[trigger] slot_taken(
                    self.mmu@,
                    sp,
                    x,
                    3,
                ) by {
                    assert(!in_use_at(v0, sp, x));
                    let kr = find_table(v0, sp.root).unwrap();
                    lemma_in_use_taken(v0, kr, x);
                }
            }
        }
        while i < count as u64
            invariant
                took_at_most(p0, self.pages(), (6 * i) as nat),
                free == pages_free(v0, sp, base, end as int),
                usage != MemoryUsage::ModuleSpace ==> free,
                room == (6 * count <= usize::MAX && p0.has_room((6 * count) as usize)),
                next0 == old(self).modules_next(),
                free ==> forall|x: u64|
                    base + i * PAGE_SIZE <= x < end && x % 0x1000 == 0 ==> !#[trigger] slot_taken(
                        self.tables(),
                        sp,
                        x,
                        3,
                    ),
                self.wf(),
                space_wf(self.tables(), sp),
                v0 == old(self).tables(),
                p0 == old(self).pages(),
                grows(v0, self.tables()),
                allocations_kept(p0, self.pages()),
                keeps_mapped(v0, self.tables(), sp),
                i <= count,
                usage_is_low_spec(usage) == sp.is_low,
                base % 0x1000 == 0,
                end == base + count * PAGE_SIZE,
                (sp.is_low && end <= LOW_ADDR_SPACE_END) || (!sp.is_low && base >= INVALID_VIRT_ADDRESS_END),
                usage == MemoryUsage::ModuleSpace ==> base == old(self).modules_next(),
                usage != MemoryUsage::ModuleSpace ==> find_free_spec(
                    v0,
                    sp,
                    count as int,
                    usage_bounds(usage).0,
                    usage_bounds(usage).1,
                ) == Ok::<u64, MemoryError>(base),
                forall|x: u64|
                    base <= x < base + i * PAGE_SIZE && x % 0x1000 == 0 ==> #[trigger] page_backed(
                        p0,
                        self.pages(),
                        self.tables(),
                        sp,
                        x,
                    ),
            decreases count - i,
        {
            let ghost tb = self.mmu@;
            let ghost pb = self.physical;
            proof {
                if room {
                    lemma_room_after(p0, pb, (6 * i) as nat, (6 * count) as usize, 6);
                    pb.lemma_room_less(6, 1);
                }
            }
            let pa = match self.physical.allocate(1) {
                Some(p) => p,
                None => {
                    proof {
                        lemma_owned_kept(tb, pb, self.physical);
                        lemma_kept_trans(p0, pb, self.physical);
                        assert(took_at_most(pb, self.physical, 1));
                        lemma_took_trans(p0, pb, self.physical, (6 * i) as nat, 1);
                        lemma_took_more(p0, self.physical, (6 * i + 1) as nat, (6 * count) as nat);
                    }
                    return Err(Error::Memory(MemoryError::OutOfPhysicalMemory));
                },
            };
            let ghost pc = self.physical;
            proof {
                assert(took_at_most(pb, pc, 1));
                lemma_took_trans(p0, pb, pc, (6 * i) as nat, 1);
                if room {
                    lemma_room_after(pb, pc, 1, 6, 5);
                }
            }
            let ghost pa_v = pa@;
            proof {
                lemma_owned_kept(tb, pb, pc);
                lemma_kept_trans(p0, pb, pc);
                assert(!p0.allocated(pa_v)) by {
                    if p0.allocated(pa_v) {
                        assert(pb.allocated(pa_v));
                    }
                }
            }
            let x = base + i * 4096;
            assert(x % 0x1000 == 0) by (nonlinear_arith)
                requires
                    x == base + i * 4096,
                    base % 0x1000 == 0,
            ;
            proof {
                assert(in_low_addr_space(x) == sp.is_low);
                if free {
                    assert(!slot_taken(tb, sp, x, 3));
                }
                if usage != MemoryUsage::ModuleSpace {
                    assert(free);
                } else {
                    assert(base == old(self).modules_next());
                }
            }
            let r = self.map_page(VirtualAddress::new(x), pa, MapOptions::default_4k(), sp);
            proof {
                lemma_kept_trans(p0, pc, self.physical);
                lemma_stop_chain(v0, tb, self.mmu@, sp, r is Err);
                lemma_took_trans(p0, pc, self.physical, (6 * i + 1) as nat, 5);
                assert(6 * i + 1 + 5 == 6 * (i + 1));
            }
            if let Err(e) = r {
                proof {
                    lemma_took_more(p0, self.physical, (6 * (i + 1)) as nat, (6 * count) as nat);
                }
                return Err(e);
            }
            proof {
                if free {
                    let w = self.mmu@;
                    assert forall|y: u64| base + (i + 1) * PAGE_SIZE <= y < end && y % 0x1000 == 0 implies !#[trigger] slot_taken(
                        w,
                        sp,
                        y,
                        3,
                    ) by {
                        assert(!slot_taken(tb, sp, y, 3));
                        lemma_later_slot(sp, y, x, 3, 3);
                        assert(slot_taken(w, sp, y, 3) == slot_taken(tb, sp, y, 3));
                    }
                }
            }
            proof {
                lemma_kept_trans(pb, pc, self.physical);
                lemma_alloc_step(p0, pb, pc, self.physical, v0, tb, self.mmu@, sp, base, i as int, pa_v);
            }
            i = i + 1;
        }
        proof {
            lemma_took_more(p0, self.physical, (6 * i) as nat, (6 * count) as nat);
        }
        Ok(virt)
    }

    /// Unmap the `count` 4 KB pages from `addr` in `sp` (see `unmap_page`) and give each
    /// physical page back to the page allocator, unless a translation table starts in it or the
    /// allocator does not manage it. The first error stops it; what was unmapped stays so.
    pub fn dealloc_pages(&mut self, addr: VirtualAddress, count: usize, sp: VirtualAddressSpace) -> (r:
        Result<(), Error>)
        requires
            old(self).wf(),
            space_wf(old(self).tables(), sp),
            addr@ + count * PAGE_SIZE <= u64::MAX,
            addr@ >= INVALID_VIRT_ADDRESS_END || addr@ + count * PAGE_SIZE <= INVALID_VIRT_ADDRESS_START,
        ensures
            final(self).wf(),
            space_wf(final(self).tables(), sp),
            grows(old(self).tables(), final(self).tables()),
            final(self).modules_next() == old(self).modules_next(),
            only_removes(old(self).tables(), final(self).tables(), sp),
            r is Ok ==> forall|x: u64|
                addr@ <= x < addr@ + count * PAGE_SIZE && (x - addr@) % 0x1000 == 0
                    ==> #[trigger] translate(final(self).tables(), sp, x) is None,
            r matches Err(e) ==> e == Error::Memory(MemoryError::InvalidAddrSpace) || e == Error::Memory(
                MemoryError::NotMapped,
            ) || e == Error::Memory(MemoryError::AlreadyMapped),
            forall|y: u64| #[trigger] final(self).pages().allocated(y) ==> old(self).pages().allocated(y),
            forall|y: u64|
                #[trigger] old(self).pages().allocated(y) && !(exists|x: u64, ptr: PhysicalAddress|
                    addr@ <= x < addr@ + count * PAGE_SIZE && (x - addr@) % 0x1000 == 0 && #[trigger] frees_frame(
                        old(self).tables(),
                        old(self).pages(),
                        sp,
                        x,
                        ptr,
                        y,
                    )) ==> final(self).pages().allocated(y),
            r is Ok ==> forall|x: u64, ptr: PhysicalAddress|
                #![trigger page_frame(old(self).tables(), sp, x), final(self).pages().allocated(ptr@)]
                addr@ <= x < addr@ + count * PAGE_SIZE && (x - addr@) % 0x1000 == 0 && page_frame(
                    old(self).tables(),
                    sp,
                    x,
                ) == Some(ptr@) && freeable(old(self).tables(), old(self).pages(), ptr)
                    ==> !final(self).pages().allocated(ptr@),
    {
        let ghost v0 = self.mmu@;
        let ghost p0 = self.physical;
        let base = addr.copy().addr();
        let mut i: u64 = 0;
        while i < count as u64
            invariant
                self.wf(),
                space_wf(self.tables(), sp),
                v0 == old(self).tables(),
                self.modules_next() == old(self).modules_next(),
                grows(v0, self.tables()),
                only_removes(v0, self.tables(), sp),
                i <= count,
                base == addr@,
                base + count * PAGE_SIZE <= u64::MAX,
                base >= INVALID_VIRT_ADDRESS_END || base + count * PAGE_SIZE <= INVALID_VIRT_ADDRESS_START,
                forall|x: u64|
                    base <= x < base + i * PAGE_SIZE && (x - base) % 0x1000 == 0
                        ==> #[trigger] translate(self.tables(), sp, x) is None,
                p0 == old(self).pages(),
                tables_wf(v0),
                space_wf(v0, sp),
                self.tables().addrs == v0.addrs,
                self.tables().levels == v0.levels,
                forall|y: u64| #[trigger] table_at(self.tables(), sp, y, 3) == table_at(v0, sp, y, 3),
                forall|k: int, j: int|
                    0 <= k < v0.addrs.len() && 0 <= j < ENTRIES ==> #[trigger] entry(self.tables(), k, j) == entry(
                        v0,
                        k,
                        j,
                    ) || !present(entry(self.tables(), k, j)),
                forall|y: u64| #[trigger] self.pages().allocated(y) ==> p0.allocated(y),
                forall|q: PhysicalAddress, n: usize| #[trigger] self.pages().can_dealloc(q, n) == p0.can_dealloc(q, n),
                forall|y: u64|
                    #[trigger] p0.allocated(y) && !(exists|x: u64, ptr: PhysicalAddress|
                        base <= x < base + i * PAGE_SIZE && (x - base) % 0x1000 == 0 && #[trigger] frees_frame(
                            v0,
                            p0,
                            sp,
                            x,
                            ptr,
                            y,
                        )) ==> self.pages().allocated(y),
                forall|x: u64, ptr: PhysicalAddress|
                    #![trigger page_frame(v0, sp, x), self.pages().allocated(ptr@)]
                    base <= x < base + i * PAGE_SIZE && (x - base) % 0x1000 == 0 && page_frame(v0, sp, x) == Some(
                        ptr@,
                    ) && freeable(v0, p0, ptr) ==> !self.pages().allocated(ptr@),
            decreases count - i,
        {
            let ghost before = self.mmu@;
            let ghost pb = self.physical;
            let x = base + i * 4096;
            let res = self.unmap_page(VirtualAddress::new(x), MapSize::Size4KB, sp);
            proof {
                lemma_removes_trans(v0, before, self.mmu@, sp);
                lemma_grows_trans(v0, before, self.mmu@);
            }
            let phys = match res {
                Ok(p) => p,
                Err(e) => return Err(e),
            };
            proof {
                let w = self.mmu@;
                if let Ok(k) = table_at(before, sp, x, 3) {
                    let ix = va_index(x, 3);
                    let e = entry(before, k, ix);
                    lemma_table_at_frame(before, before, sp, x, 3, k, ix);
                    lemma_index_bound(x, 3);
                    if present(e) {
                        lemma_clear_present(e);
                        lemma_set_entry_wf(before, k, ix, e & !1u64);
                        assert(w == set_entry(before, k, ix, e & !1u64));
                        assert(0 <= k < before.addrs.len());
                        assert(entry(w, k, ix) == e & !1u64);
                        assert forall|y: u64| #[trigger] table_at(w, sp, y, 3) == table_at(v0, sp, y, 3) by {
                            lemma_table_at_frame(before, w, sp, y, 3, k, ix);
                        }
                        assert forall|k2: int, j: int|
                            0 <= k2 < v0.addrs.len() && 0 <= j < ENTRIES implies #[trigger] entry(w, k2, j) == entry(
                                v0,
                                k2,
                                j,
                            ) || !present(entry(w, k2, j)) by {
                            if k2 != k || j != ix {
                                assert(entry(w, k2, j) == entry(before, k2, j));
                            } else {
                                assert(entry(w, k2, j) == e & !1u64);
                            }
                        }
                    }
                }
            }
            proof {
                assert forall|y: u64|
                    base <= y < base + (i + 1) * PAGE_SIZE && (y - base) % 0x1000 == 0 implies #[trigger] translate(
                    self.tables(),
                    sp,
                    y,
                ) is None by {
                    if y < x {
                        assert(translate(before, sp, y) is None);
                    } else {
                        assert(y == x);
                    }
                }
            }
            let ghost pf = page_frame(v0, sp, x);
            proof {
                assert(table_at(before, sp, x, 3) == table_at(v0, sp, x, 3));
                let kk = table_at(before, sp, x, 3)->Ok_0;
                lemma_index_bound(x, 3);
                lemma_table_at_frame(v0, v0, sp, x, 3, kk, va_index(x, 3));
                assert(present(entry(before, kk, va_index(x, 3))));
                assert(entry(before, kk, va_index(x, 3)) == entry(v0, kk, va_index(x, 3)));
                assert(pf == Some(phys@));
                if let Some(q) = pf {
                    let k = table_at(v0, sp, x, 3)->Ok_0;
                    assert(table_at(before, sp, x, 3) == table_at(v0, sp, x, 3));
                    lemma_table_at_frame(v0, v0, sp, x, 3, k, va_index(x, 3));
                    lemma_index_bound(x, 3);
                    assert(entry(before, k, va_index(x, 3)) == entry(v0, k, va_index(x, 3)));
                    assert(phys@ == q);
                }
            }
            let p = phys.copy().addr();
            if p <= u64::MAX - 0x1000 {
                if !self.mmu.has_table_in(p, p + 0x1000) && self.physical.can_deallocate(&phys, 1) {
                    let ghost pc = self.physical;
                    self.physical.deallocate(phys, 1);
                    proof {
                        let t = self.mmu@;
                        assert forall|k: int| 0 <= k < t.addrs.len() implies self.physical.allocated(
                            #[trigger] t.addrs[k],
                        ) by {
                            assert(pc.allocated(t.addrs[k]));
                            assert(!(p <= t.addrs[k] < p + 0x1000));
                        }
                    }
                }
            }
            proof {
                let pn = self.physical;
                assert forall|y: u64|
                    #[trigger] p0.allocated(y) && !(exists|x2: u64, ptr: PhysicalAddress|
                        base <= x2 < base + (i + 1) * PAGE_SIZE && (x2 - base) % 0x1000 == 0 && #[trigger] frees_frame(
                            v0,
                            p0,
                            sp,
                            x2,
                            ptr,
                            y,
                        )) implies pn.allocated(y) by {
                    assert(pb.allocated(y)) by {
                        if !pb.allocated(y) {
                            let (x2, ptr) = choose|x2: u64, ptr: PhysicalAddress|
                                base <= x2 < base + i * PAGE_SIZE && (x2 - base) % 0x1000 == 0 && #[trigger] frees_frame(
                                    v0,
                                    p0,
                                    sp,
                                    x2,
                                    ptr,
                                    y,
                                );
                            assert(frees_frame(v0, p0, sp, x2, ptr, y));
                        }
                    }
                    if !pn.allocated(y) {
                        assert(phys@ <= y < phys@ + 0x1000);
                        assert(pb.can_dealloc(phys, 1));
                        assert(frees_frame(v0, p0, sp, x, phys, y));
                    }
                }
                assert forall|y: u64, ptr: PhysicalAddress|
                    #![trigger page_frame(v0, sp, y), pn.allocated(ptr@)]
                    base <= y < base + (i + 1) * PAGE_SIZE && (y - base) % 0x1000 == 0 && page_frame(v0, sp, y) == Some(
                        ptr@,
                    ) && freeable(v0, p0, ptr) implies !pn.allocated(ptr@) by {
                    if y < x {
                        assert(!pb.allocated(ptr@));
                    } else {
                        assert(y == x) by (nonlinear_arith)
                            requires
                                x == base + i * 4096,
                                x <= y < base + (i + 1) * 4096,
                                (y - base) % 0x1000 == 0,
                        ;
                        Address::lemma_view_injective(ptr, phys);
                        assert(pb.can_dealloc(phys, 1));
                        assert(!(exists|k: int| 0 <= k < self.mmu@.addrs.len() && p <= #[trigger] self.mmu@.addrs[k] < p + 0x1000));
                    }
                }
            }
            i = i + 1;
        }
        Ok(())
    }

    /// Allocate `count` contiguous physical pages and map them from `addr` in `sp` with `flags`
    /// (see `Mmu::map`); returns `addr`. `OutOfPhysicalMemory` if the physical pages cannot be
    /// had.
    pub fn alloc_pages_at_addr(
        &mut self,
        addr: VirtualAddress,
        count: usize,
        flags: MapFlags,
        sp: VirtualAddressSpace,
    ) -> (r: Result<VirtualAddress, Error>)
        requires
            old(self).wf(),
            space_wf(old(self).tables(), sp),
            count > 0,
            addr@ % PAGE_SIZE as u64 == 0,
            addr@ + count * PAGE_SIZE <= u64::MAX,
            addr@ >= INVALID_VIRT_ADDRESS_END || addr@ + count * PAGE_SIZE <= INVALID_VIRT_ADDRESS_START,
        ensures
            final(self).wf(),
            space_wf(final(self).tables(), sp),
            grows(old(self).tables(), final(self).tables()),
            allocations_kept(old(self).pages(), final(self).pages()),
            final(self).modules_next() == old(self).modules_next(),
            r matches Ok(a) ==> a@ == addr@,
            (flags.0 & 0x80 == 0 || in_half(sp, addr@ as int, addr@ + count * PAGE_SIZE)) && r is Ok
                ==> exists|p: u64|
                #![trigger final(self).pages().allocated(p)]
                !old(self).pages().allocated(p) && final(self).pages().allocated(p) && maps_pages(
                    final(self).tables(),
                    sp,
                    addr@,
                    p,
                    addr@ + count * PAGE_SIZE,
                ),
            flags.0 & 0x80 == 0 && r is Ok ==> pages_unmapped(
                old(self).tables(),
                sp,
                addr@,
                addr@ + count * PAGE_SIZE,
            ),
            flags.0 & 0x80 == 0 ==> keeps_mapped(old(self).tables(), final(self).tables(), sp),
            r matches Err(e) ==> e == Error::Memory(MemoryError::AlreadyMapped) || e == Error::Memory(
                MemoryError::OutOfPhysicalMemory,
            ),
            took_at_most(old(self).pages(), final(self).pages(), (6 * count) as nat),
            r matches Err(e) && e == Error::Memory(MemoryError::OutOfPhysicalMemory) ==> !(6 * count
                <= usize::MAX && old(self).pages().has_room((6 * count) as usize)),
            r matches Err(e) && e == Error::Memory(MemoryError::AlreadyMapped) ==> if flags.0 & 0x80 == 0 {
                !in_half(sp, addr@ as int, addr@ + count * PAGE_SIZE) || exists|p: int|
                    !#[trigger] spans_free(old(self).tables(), sp, addr@ as int, p, addr@ + count * PAGE_SIZE)
            } else {
                !sp.is_low && !(pages_free(old(self).tables(), sp, addr@, addr@ + count * PAGE_SIZE) && in_half(
                    sp,
                    addr@ as int,
                    addr@ + count * PAGE_SIZE,
                ))
            },
            (if flags.0 & 0x80 == 0 {
                in_half(sp, addr@ as int, addr@ + count * PAGE_SIZE) && forall|p: int|
                    #[trigger] spans_free(old(self).tables(), sp, addr@ as int, p, addr@ + count * PAGE_SIZE)
            } else {
                sp.is_low || (pages_free(old(self).tables(), sp, addr@, addr@ + count * PAGE_SIZE) && in_half(
                    sp,
                    addr@ as int,
                    addr@ + count * PAGE_SIZE,
                ))
            }) && 6 * count <= usize::MAX && old(self).pages().has_room((6 * count) as usize) ==> r is Ok,
    {
        let ghost pb = self.physical;
        let ghost room = 6 * count <= usize::MAX && pb.has_room((6 * count) as usize);
        proof {
            if room {
                pb.lemma_room_less((6 * count) as usize, count);
            }
        }
        let phys = match self.physical.allocate(count) {
            Some(p) => p,
            None => {
                proof {
                    lemma_owned_kept(self.mmu@, pb, self.physical);
                    assert(took_at_most(pb, self.physical, count as nat));
                    lemma_took_more(pb, self.physical, count as nat, (6 * count) as nat);
                }
                return Err(Error::Memory(MemoryError::OutOfPhysicalMemory));
            },
        };
        let ghost pc = self.physical;
        let ghost pv = phys@;
        proof {
            lemma_owned_kept(self.mmu@, pb, pc);
            assert(took_at_most(pb, pc, count as nat));
            if room {
                lemma_room_after(pb, pc, count as nat, (6 * count) as usize, (5 * count) as usize);
            }
        }
        let r = self.mmu.map(addr, phys, count, flags, sp, &mut self.physical);
        proof {
            lemma_kept_trans(pb, pc, self.physical);
            assert(self.physical.allocated(pv));
            lemma_took_trans(pb, pc, self.physical, count as nat, (5 * count) as nat);
            if r is Ok && (flags.0 & 0x80 == 0 || in_half(sp, addr@ as int, addr@ + count * PAGE_SIZE)) {
                assert(maps_pages(self.tables(), sp, addr@, pv, addr@ + count * PAGE_SIZE));
                assert(!old(self).pages().allocated(pv) && self.pages().allocated(pv));
            }
        }
        r
    }

    /// Find `count` free pages for `usage` in `sp`: the modules space takes the next pages
    /// (see `ModuleSpace`); the kernel heap and user data are searched in their ranges (see
    /// `Mmu::find_free_pages`). `InvalidAddrSpace` if `sp` is not the half of the address space
    /// of `usage`.
    pub fn find_free_pages(&mut self, count: usize, usage: MemoryUsage, sp: VirtualAddressSpace) -> (r:
        Result<VirtualAddress, Error>)
        requires
            old(self).wf(),
            space_wf(old(self).tables(), sp),
            usage == MemoryUsage::ModuleSpace ==> old(self).modules_next() + count * PAGE_SIZE
                <= u64::MAX,
            usage != MemoryUsage::ModuleSpace ==> count > 0 && count * PAGE_SIZE <= usage_bounds(
                usage,
            ).1 - usage_bounds(usage).0,
        ensures
            final(self).wf(),
            final(self).tables() == old(self).tables(),
            final(self).pages() == old(self).pages(),
            r matches Ok(a) ==> a@ % PAGE_SIZE as u64 == 0,
            usage_is_low_spec(usage) != sp.is_low ==> r == Err::<VirtualAddress, Error>(
                Error::Memory(MemoryError::InvalidAddrSpace),
            ) && final(self).modules_next() == old(self).modules_next(),
            usage_is_low_spec(usage) == sp.is_low && usage == MemoryUsage::ModuleSpace ==> {
                let next = old(self).modules_next();
                &&& final(self).modules_next() == next + count * PAGE_SIZE
                &&& next + count * PAGE_SIZE < MODULES_SPACE_END ==> (r matches Ok(a) && a@ == next)
                &&& next + count * PAGE_SIZE >= MODULES_SPACE_END ==> r == Err::<VirtualAddress, Error>(
                    Error::Memory(MemoryError::OutOfVirtualSpace),
                )
            },
            usage_is_low_spec(usage) == sp.is_low && usage != MemoryUsage::ModuleSpace ==> {
                &&& final(self).modules_next() == old(self).modules_next()
                &&& match find_free_spec(
                    old(self).tables(),
                    sp,
                    count as int,
                    usage_bounds(usage).0,
                    usage_bounds(usage).1,
                ) {
                    Ok(a) => r matches Ok(x) && x@ == a,
                    Err(e) => r == Err::<VirtualAddress, Error>(Error::Memory(e)),
                }
                &&& r matches Ok(x) ==> usage_bounds(usage).0 <= x@ && x@ + count * PAGE_SIZE <= usage_bounds(
                    usage,
                ).1 && pages_unmapped(old(self).tables(), sp, x@, x@ + count * PAGE_SIZE)
                &&& r matches Ok(x) ==> pages_free(old(self).tables(), sp, x@, x@ + count * PAGE_SIZE)
                &&& r is Err ==> forall|p: int|
                    usage_bounds(usage).0 / 4096 <= p && p + count <= usage_bounds(usage).1 / 4096
                        ==> #[trigger] window_used(old(self).tables(), sp, p, count as int)
            },
    {
        if usage_is_low(usage) != sp.is_low {
            return Err(Error::Memory(MemoryError::InvalidAddrSpace));
        }
        if usage == MemoryUsage::ModuleSpace {
            return self.modules.find_free_pages(count);
        }
        let (start, end) = usage_range(usage);
        proof {
            assert((0xFFFF_0080_0000_0000u64 >> 39u64) & 0x1FF == (0xFFFF_00FF_FFFF_FFFFu64 >> 39u64)
                & 0x1FF && (0x4000_0000u64 >> 39u64) & 0x1FF == (0x7F_FFFF_FFFFu64 >> 39u64) & 0x1FF)
                by (bit_vector);
            assert(va_index(start, 0) == ((start >> 39u64) & 0x1FF) as int);
            assert(va_index((end - 1) as u64, 0) == (((end - 1) as u64 >> 39u64) & 0x1FF) as int);
        }
        self.mmu.find_free_pages(count, VirtualAddress::new(start), VirtualAddress::new(end), sp)
    }
}


/// Pages of tables handed out stay handed out.
proof fn lemma_owned_kept<P: PageAllocator<Physical>>(v: TablesView, p0: P, p1: P)
    requires
        owned(v, p0),
        allocations_kept(p0, p1),
    ensures
        owned(v, p1),
{
    assert forall|k: int| 0 <= k < v.addrs.len() implies p1.allocated(#[trigger] v.addrs[k]) by {
        assert(p0.allocated(v.addrs[k]));
    }
}

/// One more page of `alloc_pages`: the page at `base + i` pages, mapped to the fresh physical
/// page `pa`, is backed, and the pages before it and what was mapped stay.
proof fn lemma_alloc_step<P: PageAllocator<Physical>>(
    p0: P,
    pb: P,
    pc: P,
    p1: P,
    v0: TablesView,
    before: TablesView,
    w: TablesView,
    sp: VirtualAddressSpace,
    base: u64,
    i: int,
    pa: u64,
)
    requires
        base % 0x1000 == 0,
        0 <= i,
        base + (i + 1) * PAGE_SIZE <= u64::MAX,
        pa % 0x1000 == 0,
        pa + 0x1000 <= u64::MAX,
        !p0.allocated(pa),
        pc.allocated(pa),
        allocations_kept(pc, p1),
        allocations_kept(pb, p1),
        keeps_mapped(v0, before, sp),
        forall|x: u64|
            base <= x < base + i * PAGE_SIZE && x % 0x1000 == 0 ==> #[trigger] page_backed(
                p0,
                pb,
                before,
                sp,
                x,
            ),
        maps_slot(w, sp, (base + i * PAGE_SIZE) as u64, pa, 3),
        keeps_other_slots(before, w, sp, (base + i * PAGE_SIZE) as u64, 3),
        slot_unmapped(before, sp, (base + i * PAGE_SIZE) as u64, 3),
    ensures
        keeps_mapped(v0, w, sp),
        forall|x: u64|
            base <= x < base + (i + 1) * PAGE_SIZE && x % 0x1000 == 0 ==> #[trigger] page_backed(
                p0,
                p1,
                w,
                sp,
                x,
            ),
{
    let y = (base + i * PAGE_SIZE) as u64;
    assert forall|x: u64| translate(v0, sp, x) is Some implies #[trigger] translate(w, sp, x)
        == translate(v0, sp, x) by {
        assert(translate(before, sp, x) == translate(v0, sp, x));
        if same_slot(sp, x, y, 3) {
            assert(translate(before, sp, x) is None);
        }
    }
    assert forall|x: u64|
        base <= x < base + (i + 1) * PAGE_SIZE && x % 0x1000 == 0 implies #[trigger] page_backed(
        p0,
        p1,
        w,
        sp,
        x,
    ) by {
        if x < y {
            assert(page_backed(p0, pb, before, sp, x));
            let p = choose|p: u64| !p0.allocated(p) && pb.allocated(p) && translate(before, sp, x) == Some(
                target(p) as int,
            );
            if same_slot(sp, x, y, 3) {
                assert(translate(before, sp, x) is None);
            }
            assert(translate(w, sp, x) == translate(before, sp, x));
            assert(p1.allocated(p));
        } else {
            assert(x == y);
            assert(same_slot(sp, x, y, 3));
            lemma_chunk_phys(pa, y, x, 3);
            assert(translate(w, sp, x) == Some((target(pa) + offset_in(x, 3)) as int));
            assert(p1.allocated(pa));
        }
    }
}

} // verus!
