use kernel::error::{Error, MemoryError};
use kernel::memory::address::{PhysicalAddress, VirtualAddress};
use kernel::memory::dma::Dma;
use kernel::memory::heap::Allocator;
use kernel::memory::mmu::{get_page_level_index, PageLevel, TableEntry, LowerDescriptorAttributes, UpperDescriptorAttributes};
use kernel::memory::pmm::{PhysicalMemoryManager, PmmPageAllocator, MemoryDescriptor};
use kernel::memory::page_allocator::PageAllocator;
use kernel::memory::vmm::{check_addr_space, usage_is_low, MapFlags, MapOptions, MapSize, MemoryUsage, ModuleSpace};

fn free_pmm(bytes: usize) -> PhysicalMemoryManager {
    let mut pmm = PhysicalMemoryManager::all_used(bytes);
    pmm.set_free_range(0, bytes * 8);
    pmm
}

#[test]
fn pmm_all_used_marks_every_page() {
    let pmm = PhysicalMemoryManager::all_used(2);
    assert_eq!(pmm.page_count(), 16);
    for i in 0..16 {
        assert!(pmm.is_used(i));
    }
}

#[test]
fn pmm_alloc_takes_first_fit() {
    let mut pmm = free_pmm(2);
    pmm.set_used(1);
    // pages 0 is free but too short for 2 pages; pages 2..4 are the first run of 2
    let a = pmm.alloc_pages(2).ok().unwrap();
    assert_eq!(a.addr(), 2 * 4096);
    assert!(pmm.is_used(2) && pmm.is_used(3));
    assert!(!pmm.is_used(0));
    let b = pmm.alloc_pages(1).ok().unwrap();
    assert_eq!(b.addr(), 0);
}

#[test]
fn pmm_alloc_out_of_memory() {
    let mut pmm = free_pmm(1);
    match pmm.alloc_pages(9) {
        Err(Error::Memory(MemoryError::OutOfPhysicalMemory)) => {}
        _ => panic!("expected out of memory"),
    }
}

#[test]
fn pmm_alloc_then_unalloc_frees_again() {
    let mut pmm = free_pmm(1);
    let a = pmm.alloc_pages(3).ok().unwrap();
    pmm.unalloc_pages(a, 3);
    for i in 0..8 {
        assert!(!pmm.is_used(i));
    }
}

#[test]
fn pmm_usable_memory_types() {
    assert!(PhysicalMemoryManager::is_memory_type_usable(7));
    assert!(PhysicalMemoryManager::is_memory_type_usable(1));
    assert!(!PhysicalMemoryManager::is_memory_type_usable(0));
}

#[test]
fn pmm_print_bitmap_runs() {
    let mut pmm = PhysicalMemoryManager::all_used(1);
    pmm.set_free_range(2, 3);
    let runs = pmm.print_bitmap();
    assert_eq!(runs.len(), 2);
    assert!(runs[0].used && runs[0].from == 0 && runs[0].to == 2);
    assert!(!runs[1].used && runs[1].from == 2 && runs[1].to == 5);
}

#[test]
fn pmm_memory_map_support() {
    let ok = vec![
        MemoryDescriptor { ty: 7, phys_start: 0, page_count: 64 },
        MemoryDescriptor { ty: 0x8000_0001, phys_start: 0xA000, page_count: 1 },
    ];
    assert!(PhysicalMemoryManager::is_memory_map_supported(&ok));
    let pmm = PhysicalMemoryManager::new(&ok);
    // the bitmap takes whole pages: one page of bits covers 32768 pages
    assert_eq!(pmm.page_count(), 32768);
    assert!(pmm.is_used(64));
    // the bitmap takes the first free page
    assert!(pmm.is_used(0));
    assert!(!pmm.is_used(1));
    assert!(!pmm.is_used(10));
    let no_map = vec![MemoryDescriptor { ty: 7, phys_start: 0, page_count: 64 }];
    assert!(!PhysicalMemoryManager::is_memory_map_supported(&no_map));
    let bad = vec![MemoryDescriptor { ty: 7, phys_start: u64::MAX - 10, page_count: 2 }];
    assert!(!PhysicalMemoryManager::is_memory_map_supported(&bad));
}

#[test]
fn heap_first_alloc_makes_a_chunk() {
    let mut pages = PmmPageAllocator::new(free_pmm(4));
    let mut heap = Allocator::new();
    let a = heap.alloc_bytes(&mut pages, 100, 8).unwrap();
    // chunk at page 0: chunk header, then the block header, then the data
    assert_eq!(a, 64);
}

#[test]
fn heap_second_alloc_splits_after_aligned_data() {
    let mut pages = PmmPageAllocator::new(free_pmm(4));
    let mut heap = Allocator::new();
    let a = heap.alloc_bytes(&mut pages, 100, 8).unwrap();
    let b = heap.alloc_bytes(&mut pages, 10, 8).unwrap();
    // data of the first block ends at 164, aligned up to 168 for the new header
    assert_eq!(a, 64);
    assert_eq!(b, 200);
    assert_eq!(b % 8, 0);
}

#[test]
fn heap_dealloc_returns_chunk_when_empty() {
    let mut pages = PmmPageAllocator::new(free_pmm(4));
    let mut heap = Allocator::new();
    let a = heap.alloc_bytes(&mut pages, 100, 8).unwrap();
    let b = heap.alloc_bytes(&mut pages, 10, 8).unwrap();
    assert_eq!(heap.dealloc(b, 10), None);
    assert_eq!(heap.dealloc(a, 100), Some((0, 16)));
}

#[test]
fn heap_reuses_hole() {
    let mut pages = PmmPageAllocator::new(free_pmm(4));
    let mut heap = Allocator::new();
    let a = heap.alloc_bytes(&mut pages, 100, 8).unwrap();
    let _b = heap.alloc_bytes(&mut pages, 10, 8).unwrap();
    assert_eq!(heap.dealloc(a, 100), None);
    let c = heap.alloc_bytes(&mut pages, 50, 4).unwrap();
    assert_eq!(c, a);
}

#[test]
fn heap_alloc_fails_without_pages() {
    let mut pages = PmmPageAllocator::new(PhysicalMemoryManager::all_used(4));
    let mut heap = Allocator::new();
    assert_eq!(heap.alloc_bytes(&mut pages, 8, 8), None);
}

#[test]
fn heap_big_alloc_gets_own_chunk() {
    let mut pages = PmmPageAllocator::new(free_pmm(8));
    let mut heap = Allocator::new();
    let a = heap.alloc_bytes(&mut pages, 16, 8).unwrap();
    let b = heap.alloc_bytes(&mut pages, 20 * 4096, 8).unwrap();
    assert_eq!(a, 64);
    // the first chunk (16 pages) cannot hold it: a new chunk of 21 pages follows it
    assert_eq!(b, 16 * 4096 + 64);
}

#[test]
fn page_allocator_trait_allocates_page_aligned() {
    let mut pages = PmmPageAllocator::new(free_pmm(1));
    let a = pages.allocate(2).unwrap();
    assert_eq!(a.copy().addr() % 4096, 0);
    pages.deallocate(a, 2);
}

#[test]
fn dma_page_count_rounds_up() {
    assert_eq!(Dma::page_count_for(0), 0);
    assert_eq!(Dma::page_count_for(1), 1);
    assert_eq!(Dma::page_count_for(4096), 1);
    assert_eq!(Dma::page_count_for(4097), 2);
    let d = Dma::new(5000, VirtualAddress::new(0x1000), PhysicalAddress::new(0x2000));
    assert_eq!(d.page_count(), 2);
    assert_eq!(d.phys().addr(), 0x2000);
    assert_eq!(d.ptr().addr(), 0x1000);
}

#[test]
fn address_to_virt_adds_linear_mapping() {
    let p = PhysicalAddress::new(0x1234);
    assert_eq!(p.to_virt().addr(), 0xFFFF_0000_0000_1234);
    assert!(PhysicalAddress::new(0x2000).is_aligned_to(0x1000));
    assert!(!PhysicalAddress::new(0x2001).is_aligned_to(0x1000));
}

#[test]
fn map_flags_pack_bits() {
    let f = MapFlags::new(true, true, 0b10, 0b011, true);
    assert_eq!(f.0, 0b1011_1011);
    assert!(f.read_only() && f.el0_access() && f.force_remap());
    assert_eq!(f.shareability(), 0b10);
    assert_eq!(f.attr_index(), 0b011);
    let o = MapOptions::default_4k();
    assert_eq!(o.flags.0, 0b0001_1100);
    assert!(o.size == MapSize::Size4KB);
}

#[test]
fn addr_space_checks() {
    assert!(usage_is_low(MemoryUsage::UserData));
    assert!(!usage_is_low(MemoryUsage::KernelHeap));
    assert!(check_addr_space(VirtualAddress::new(0x1000), true).is_ok());
    match check_addr_space(VirtualAddress::new(0x1000), false) {
        Err(Error::Memory(MemoryError::InvalidAddrSpace)) => {}
        _ => panic!("expected invalid address space"),
    }
}

#[test]
fn module_space_bumps() {
    let mut m = ModuleSpace::new();
    let a = m.find_free_pages(2).ok().unwrap();
    let b = m.find_free_pages(1).ok().unwrap();
    assert_eq!(a.addr(), 0xFFFF_FFFF_0000_0000);
    assert_eq!(b.addr(), 0xFFFF_FFFF_0000_2000);
}

#[test]
fn page_level_indexes() {
    let a = VirtualAddress::new(0xFFFF_0000_4020_3000);
    assert_eq!(get_page_level_index(a.copy(), PageLevel::L3), 3);
    assert_eq!(get_page_level_index(a.copy(), PageLevel::L2), 1);
    assert_eq!(get_page_level_index(a.copy(), PageLevel::L1), 1);
    assert_eq!(get_page_level_index(a, PageLevel::L0), 0);
}

#[test]
fn table_entries() {
    let e = TableEntry::create_table_descriptor(PhysicalAddress::new(0x5000));
    assert!(e.is_present());
    assert!(!e.is_block());
    assert_eq!(e.addr().addr(), 0x5000);
    let b = TableEntry::create_block_descriptor(
        PhysicalAddress::new(0x20_0000),
        LowerDescriptorAttributes::new(),
        UpperDescriptorAttributes::new(),
    );
    assert!(b.is_present() && b.is_block());
    let mut p = TableEntry::create_page_descriptor(
        PhysicalAddress::new(0x7000),
        LowerDescriptorAttributes::new(),
        UpperDescriptorAttributes::new(),
    );
    assert_eq!(p.unmap().addr(), 0x7000);
    assert!(!p.is_present());
    assert!(!TableEntry::empty().is_present());
}
