use kernel::error::{Error, MemoryError};
use kernel::memory::address::{PhysicalAddress, VirtualAddress};
use kernel::memory::pmm::{PhysicalMemoryManager, PmmPageAllocator};
use kernel::memory::tables::Mmu;
use kernel::memory::vmm::{MapFlags, MapOptions, MapSize};

fn pages() -> PmmPageAllocator {
    let mut pmm = PhysicalMemoryManager::all_used(4);
    pmm.set_free_range(0, 32);
    PmmPageAllocator::new(pmm)
}

#[test]
fn mmu_map_then_unmap_page() {
    let mut p = pages();
    let mut mmu = Mmu::new();
    let sp = mmu.create_space(true, &mut p).unwrap();
    assert!(sp.is_low);
    assert_eq!(sp.root, 0);
    let a = mmu
        .map_page(VirtualAddress::new(0x4000_0000), PhysicalAddress::new(0x8000_0000), MapOptions::default_4k(), sp, &mut p)
        .ok()
        .unwrap();
    assert_eq!(a.addr(), 0x4000_0000);
    match mmu.map_page(VirtualAddress::new(0x4000_0000), PhysicalAddress::new(0x9000), MapOptions::default_4k(), sp, &mut p) {
        Err(Error::Memory(MemoryError::AlreadyMapped)) => {}
        _ => panic!("expected already mapped"),
    }
    let forced = MapOptions::new(MapSize::Size4KB, MapFlags::new(false, false, 0b11, 1, true));
    assert!(mmu.map_page(VirtualAddress::new(0x4000_0000), PhysicalAddress::new(0x9000), forced, sp, &mut p).is_ok());
    assert_eq!(mmu.unmap(VirtualAddress::new(0x4000_0000), MapSize::Size4KB, sp).ok().unwrap().addr(), 0x9000);
    match mmu.unmap(VirtualAddress::new(0x4000_0000), MapSize::Size4KB, sp) {
        Err(Error::Memory(MemoryError::NotMapped)) => {}
        _ => panic!("expected not mapped"),
    }
}

#[test]
fn mmu_find_free_pages_skips_mapped() {
    let mut p = pages();
    let mut mmu = Mmu::new();
    let sp = mmu.create_space(true, &mut p).unwrap();
    let start = VirtualAddress::new(0x4000_0000);
    let end = VirtualAddress::new(0x80_0000_0000);
    assert_eq!(mmu.find_free_pages(1, start.copy(), end.copy(), sp).ok().unwrap().addr(), 0x4000_0000);
    mmu.map_page(VirtualAddress::new(0x4000_0000), PhysicalAddress::new(0x1000), MapOptions::default_4k(), sp, &mut p)
        .ok()
        .unwrap();
    assert_eq!(mmu.find_free_pages(1, start.copy(), end.copy(), sp).ok().unwrap().addr(), 0x4000_1000);
    assert_eq!(mmu.find_free_pages(600, start.copy(), end.copy(), sp).ok().unwrap().addr(), 0x4000_1000);
}

#[test]
fn mmu_block_mappings() {
    let mut p = pages();
    let mut mmu = Mmu::new();
    let sp = mmu.create_space(true, &mut p).unwrap();
    let two_mb = MapOptions::default_size(MapSize::Size2MB);
    assert!(mmu.map_page(VirtualAddress::new(0x4020_0000), PhysicalAddress::new(0x20_0000), two_mb, sp, &mut p).is_ok());
    // a 4 KB page in the 2 MB block: the block is in the way
    match mmu.map_page(VirtualAddress::new(0x4020_1000), PhysicalAddress::new(0x3000), MapOptions::default_4k(), sp, &mut p) {
        Err(Error::Memory(MemoryError::AlreadyMapped)) => {}
        _ => panic!("expected already mapped"),
    }
    // forced: the block is split into pages first
    let forced = MapOptions::new(MapSize::Size4KB, MapFlags::new(false, false, 0b11, 1, true));
    assert!(mmu.map_page(VirtualAddress::new(0x4020_1000), PhysicalAddress::new(0x3000), forced, sp, &mut p).is_ok());
    assert_eq!(mmu.unmap(VirtualAddress::new(0x4020_1000), MapSize::Size4KB, sp).ok().unwrap().addr(), 0x3000);
    // the other pages of the split block still map the block's memory
    assert_eq!(mmu.unmap(VirtualAddress::new(0x4020_2000), MapSize::Size4KB, sp).ok().unwrap().addr(), 0x20_2000);
    let one_gb = MapOptions::default_size(MapSize::Size1GB);
    assert!(mmu.map_page(VirtualAddress::new(0x8000_0000), PhysicalAddress::new(0x4000_0000), one_gb, sp, &mut p).is_ok());
    let start = VirtualAddress::new(0x8000_0000);
    let end = VirtualAddress::new(0x80_0000_0000);
    assert_eq!(mmu.find_free_pages(1, start, end, sp).ok().unwrap().addr(), 0xC000_0000);
}

#[test]
fn mmu_high_space_without_tables() {
    let mut p = pages();
    let mut mmu = Mmu::new();
    let sp = mmu.create_space(false, &mut p).unwrap();
    let start = VirtualAddress::new(0xFFFF_0080_0000_0000);
    let end = VirtualAddress::new(0xFFFF_0100_0000_0000);
    assert_eq!(mmu.find_free_pages(4, start.copy(), end.copy(), sp).ok().unwrap().addr(), 0xFFFF_0080_0000_0000);
    assert!(mmu.map_page(VirtualAddress::new(0xFFFF_0080_0000_0000), PhysicalAddress::new(0x5000), MapOptions::default_4k(), sp, &mut p).is_ok());
    assert_eq!(mmu.find_free_pages(1, start, end, sp).ok().unwrap().addr(), 0xFFFF_0080_0000_1000);
}

#[test]
fn mmu_map_range_with_blocks_and_pages() {
    let mut p = pages();
    let mut mmu = Mmu::new();
    let sp = mmu.create_space(true, &mut p).unwrap();
    let flags = MapFlags::default_rw(false);
    let r = mmu.map(VirtualAddress::new(0x4000_0000), PhysicalAddress::new(0x20_0000), 514, flags, sp, &mut p);
    assert_eq!(r.ok().unwrap().addr(), 0x4000_0000);
    // the same range again: already mapped
    match mmu.map(VirtualAddress::new(0x4020_0000), PhysicalAddress::new(0x5000), 1, flags, sp, &mut p) {
        Err(Error::Memory(MemoryError::AlreadyMapped)) => {}
        _ => panic!("expected already mapped"),
    }
    // the first 2 MB went into one block, the rest into pages
    assert_eq!(mmu.unmap(VirtualAddress::new(0x4000_0000), MapSize::Size2MB, sp).ok().unwrap().addr(), 0x20_0000);
    assert_eq!(mmu.unmap(VirtualAddress::new(0x4020_0000), MapSize::Size4KB, sp).ok().unwrap().addr(), 0x40_0000);
    assert_eq!(mmu.unmap(VirtualAddress::new(0x4020_1000), MapSize::Size4KB, sp).ok().unwrap().addr(), 0x40_1000);
    match mmu.unmap(VirtualAddress::new(0x4020_2000), MapSize::Size4KB, sp) {
        Err(Error::Memory(MemoryError::NotMapped)) => {}
        _ => panic!("expected not mapped"),
    }
}

#[test]
fn mmu_map_range_of_pages_when_unaligned() {
    let mut p = pages();
    let mut mmu = Mmu::new();
    let sp = mmu.create_space(true, &mut p).unwrap();
    let flags = MapFlags::default_rw(false);
    // the physical side is not on 2 MB: pages only
    let r = mmu.map(VirtualAddress::new(0x4000_0000), PhysicalAddress::new(0x1000), 513, flags, sp, &mut p);
    assert!(r.is_ok());
    assert_eq!(mmu.unmap(VirtualAddress::new(0x4000_0000), MapSize::Size4KB, sp).ok().unwrap().addr(), 0x1000);
    assert_eq!(mmu.unmap(VirtualAddress::new(0x4020_0000), MapSize::Size4KB, sp).ok().unwrap().addr(), 0x20_1000);
    // no 2 MB block: the page at 0x4000_1000 is still mapped on its own
    assert_eq!(mmu.unmap(VirtualAddress::new(0x4000_1000), MapSize::Size4KB, sp).ok().unwrap().addr(), 0x2000);
}

#[test]
fn mmu_find_free_pages_stays_in_range() {
    let mut p = pages();
    let mut mmu = Mmu::new();
    let sp = mmu.create_space(true, &mut p).unwrap();
    let start = VirtualAddress::new(0x4000_0000);
    let end = VirtualAddress::new(0x8000_0000);
    mmu.map_page(VirtualAddress::new(0x4000_0000), PhysicalAddress::new(0x1000), MapOptions::default_4k(), sp, &mut p)
        .ok()
        .unwrap();
    assert_eq!(mmu.find_free_pages(1, start.copy(), end.copy(), sp).ok().unwrap().addr(), 0x4000_1000);
    // the whole 1 GB of the range would be needed, and one page of it is mapped
    match mmu.find_free_pages(0x4_0000, start.copy(), end.copy(), sp) {
        Err(Error::Memory(MemoryError::OutOfVirtualSpace)) => {}
        _ => panic!("expected out of virtual space"),
    }
}

#[test]
fn mmu_map_forced_over_a_block() {
    let mut p = pages();
    let mut mmu = Mmu::new();
    let sp = mmu.create_space(true, &mut p).unwrap();
    let flags = MapFlags::default_rw(false);
    assert!(mmu.map(VirtualAddress::new(0x4000_0000), PhysicalAddress::new(0x20_0000), 512, flags, sp, &mut p).is_ok());
    // a forced page in the middle of the 2 MB block: the block is split, the page mapped again
    let forced = MapFlags::new(false, false, 0b11, 1, true);
    let r = mmu.map(VirtualAddress::new(0x4000_3000), PhysicalAddress::new(0x9000), 2, forced, sp, &mut p);
    assert_eq!(r.ok().unwrap().addr(), 0x4000_3000);
    assert_eq!(mmu.unmap(VirtualAddress::new(0x4000_3000), MapSize::Size4KB, sp).ok().unwrap().addr(), 0x9000);
    assert_eq!(mmu.unmap(VirtualAddress::new(0x4000_4000), MapSize::Size4KB, sp).ok().unwrap().addr(), 0xA000);
    // the pages around keep their place
    assert_eq!(mmu.unmap(VirtualAddress::new(0x4000_2000), MapSize::Size4KB, sp).ok().unwrap().addr(), 0x20_2000);
    assert_eq!(mmu.unmap(VirtualAddress::new(0x4000_5000), MapSize::Size4KB, sp).ok().unwrap().addr(), 0x20_5000);
}
