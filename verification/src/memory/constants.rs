use vstd::prelude::*;

verus! {

pub const PAGE_SHIFT: usize = 12;

/// 4 KB
pub const PAGE_SIZE: usize = 4096;

pub const ENTRIES_IN_TABLE: usize = 512;

/// Start of the hole in the virtual address space (exclusive bounds are used by `Address::new`).
pub const INVALID_VIRT_ADDRESS_START: u64 = 0x80_0000_0000;

/// End of the hole in the virtual address space.
pub const INVALID_VIRT_ADDRESS_END: u64 = 0xFFFF_0000_0000_0000;

/// The low address space: the 512 first GB.
pub const LOW_ADDR_SPACE_START: u64 = 0;

pub const LOW_ADDR_SPACE_END: u64 = 0x80_0000_0000;

/// The high address space: the last 256 TB.
pub const HIGH_ADDR_SPACE_START: u64 = 0xFFFF_0000_0000_0000;

pub const HIGH_ADDR_SPACE_END: u64 = 0xFFFF_FFFF_FFFF_FFFF;

/// Where the low physical address space is mapped.
pub const PHYSICAL_LINEAR_MAPPING_START: u64 = 0xFFFF_0000_0000_0000;

pub const PHYSICAL_LINEAR_MAPPING_END: u64 = 0xFFFF_0080_0000_0000;

pub const KERNEL_HEAP_START: u64 = 0xFFFF_0080_0000_0000;

pub const KERNEL_HEAP_END: u64 = 0xFFFF_0100_0000_0000;

pub const MODULES_SPACE_START: u64 = 0xFFFF_FFFF_0000_0000;

pub const MODULES_SPACE_END: u64 = 0xFFFF_FFFF_FFFF_FFFF;

pub const USER_SPACE_START: u64 = 0x4000_0000;

pub const USER_SPACE_END: u64 = 0x80_0000_0000;

/// Memory type of the region that holds the memory map (set by the loader).
pub const MEMORY_MAP_TYPE: u32 = 0x8000_0001;

/// Custom memory types defined in the memory map by the loader.
pub enum CustomMemoryTypes {
    Kernel,
    MemoryMap,
    KernelStack,
    Dtb,
    Initrd,
}

impl CustomMemoryTypes {
    /// The memory type number of the variant.
    pub fn value(&self) -> (r: u32)
        ensures
            r == match self {
                CustomMemoryTypes::Kernel => 0x8000_0000u32,
                CustomMemoryTypes::MemoryMap => MEMORY_MAP_TYPE,
                CustomMemoryTypes::KernelStack => 0x8000_0002u32,
                CustomMemoryTypes::Dtb => 0x8000_0003u32,
                CustomMemoryTypes::Initrd => 0x8000_0004u32,
            },
    {
        match self {
            CustomMemoryTypes::Kernel => 0x8000_0000,
            CustomMemoryTypes::MemoryMap => MEMORY_MAP_TYPE,
            CustomMemoryTypes::KernelStack => 0x8000_0002,
            CustomMemoryTypes::Dtb => 0x8000_0003,
            CustomMemoryTypes::Initrd => 0x8000_0004,
        }
    }
}

} // verus!
