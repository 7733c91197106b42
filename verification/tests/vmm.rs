use kernel::error::{Error, MemoryError};
use kernel::memory::address::{PhysicalAddress, VirtualAddress};
use kernel::memory::pmm::{PhysicalMemoryManager, PmmPageAllocator};
use kernel::memory::vmm::{MapFlags, MapOptions, MapSize, MemoryUsage, VirtualMemoryManager};

fn manager() -> VirtualMemoryManager<PmmPageAllocator> {
    let mut pmm = PhysicalMemoryManager::all_used(8);
    pmm.set_free_range(0, 64);
    VirtualMemoryManager::new(PmmPageAllocator::new(pmm))
}

#[test]
fn vmm_find_free_pages_by_usage() {
    let mut vmm = manager();
    let user = vmm.create_addr_space(true).unwrap();
    let kernel = vmm.create_addr_space(false).unwrap();
    assert_eq!(vmm.find_free_pages(1, MemoryUsage::UserData, user).ok().unwrap().addr(), 0x4000_0000);
    assert_eq!(
        vmm.find_free_pages(4, MemoryUsage::KernelHeap, kernel).ok().unwrap().addr(),
        0xFFFF_0080_0000_0000
    );
    match vmm.find_free_pages(1, MemoryUsage::KernelHeap, user) {
        Err(Error::Memory(MemoryError::InvalidAddrSpace)) => {}
        _ => panic!("expected invalid address space"),
    }
    // the modules space is taken in order
    assert_eq!(
        vmm.find_free_pages(2, MemoryUsage::ModuleSpace, kernel).ok().unwrap().addr(),
        0xFFFF_FFFF_0000_0000
    );
    assert_eq!(
        vmm.find_free_pages(1, MemoryUsage::ModuleSpace, kernel).ok().unwrap().addr(),
        0xFFFF_FFFF_0000_2000
    );
}

#[test]
fn vmm_alloc_then_dealloc_pages() {
    let mut vmm = manager();
    let user = vmm.create_addr_space(true).unwrap();
    let a = vmm.alloc_pages(3, MemoryUsage::UserData, user).ok().unwrap();
    assert_eq!(a.addr(), 0x4000_0000);
    // the next search skips the pages just mapped
    assert_eq!(vmm.find_free_pages(1, MemoryUsage::UserData, user).ok().unwrap().addr(), 0x4000_3000);
    vmm.dealloc_pages(VirtualAddress::new(0x4000_0000), 3, user).ok().unwrap();
    match vmm.unmap_page(VirtualAddress::new(0x4000_1000), MapSize::Size4KB, user) {
        Err(Error::Memory(MemoryError::NotMapped)) => {}
        _ => panic!("expected not mapped"),
    }
    assert_eq!(vmm.find_free_pages(1, MemoryUsage::UserData, user).ok().unwrap().addr(), 0x4000_0000);
}

#[test]
fn vmm_map_page_checks_the_half() {
    let mut vmm = manager();
    let user = vmm.create_addr_space(true).unwrap();
    match vmm.map_page(VirtualAddress::new(0xFFFF_0000_0000_0000), PhysicalAddress::new(0x1000), MapOptions::default_4k(), user) {
        Err(Error::Memory(MemoryError::InvalidAddrSpace)) => {}
        _ => panic!("expected invalid address space"),
    }
    let a = vmm.map_page(VirtualAddress::new(0x4000_0000), PhysicalAddress::new(0x5000), MapOptions::default_4k(), user);
    assert_eq!(a.ok().unwrap().addr(), 0x4000_0000);
    assert_eq!(vmm.unmap_page(VirtualAddress::new(0x4000_0000), MapSize::Size4KB, user).ok().unwrap().addr(), 0x5000);
}

#[test]
fn vmm_alloc_pages_at_addr_maps_contiguous_memory() {
    let mut vmm = manager();
    let user = vmm.create_addr_space(true).unwrap();
    let a = vmm.alloc_pages_at_addr(VirtualAddress::new(0x4000_0000), 2, MapFlags::default_rw(false), user);
    assert_eq!(a.ok().unwrap().addr(), 0x4000_0000);
    let p0 = vmm.unmap_page(VirtualAddress::new(0x4000_0000), MapSize::Size4KB, user).ok().unwrap().addr();
    let p1 = vmm.unmap_page(VirtualAddress::new(0x4000_1000), MapSize::Size4KB, user).ok().unwrap().addr();
    assert_eq!(p1, p0 + 0x1000);
}

#[test]
fn gic_create_maps_its_register_pages() {
    let mut vmm = manager();
    let kernel = vmm.create_addr_space(false).unwrap();
    let g = kernel::devices::gic_v2::GenericInterruptController::create(
        PhysicalAddress::new(0x0800_0000),
        PhysicalAddress::new(0x0801_0000),
        1,
        &mut vmm,
        kernel,
    )
    .ok()
    .unwrap();
    assert_eq!(g.distributor().enable_interrupt(40).offset, 0x104);
    let cpu = vmm.unmap_page(VirtualAddress::new(0xFFFF_0000_0801_0000), MapSize::Size4KB, kernel).ok().unwrap();
    assert_eq!(cpu.addr(), 0x0801_0000);
    let dist = vmm.unmap_page(VirtualAddress::new(0xFFFF_0000_0800_0000), MapSize::Size4KB, kernel).ok().unwrap();
    assert_eq!(dist.addr(), 0x0800_0000);
}

#[test]
fn vmm_alloc_pages_out_of_physical_memory() {
    let mut pmm = PhysicalMemoryManager::all_used(8);
    pmm.set_free_range(0, 4);
    let mut vmm = VirtualMemoryManager::new(PmmPageAllocator::new(pmm));
    let user = vmm.create_addr_space(true).unwrap();
    // 3 pages are left once the first table is made: the first page and two tables take them
    match vmm.alloc_pages(2, MemoryUsage::UserData, user) {
        Err(Error::Memory(MemoryError::OutOfPhysicalMemory)) => {}
        _ => panic!("expected out of physical memory"),
    }
}

#[test]
fn vmm_alloc_pages_wrong_half() {
    let mut vmm = manager();
    let kernel = vmm.create_addr_space(false).unwrap();
    match vmm.alloc_pages(1, MemoryUsage::UserData, kernel) {
        Err(Error::Memory(MemoryError::InvalidAddrSpace)) => {}
        _ => panic!("expected invalid address space"),
    }
}
