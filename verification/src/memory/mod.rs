pub mod address;
pub mod constants;
pub mod dma;
pub mod frame;
pub mod free_space;
pub mod heap;
pub mod page_allocator;
pub mod mmu;
pub mod tables;
pub mod pmm;
pub mod vmm;

pub use address::{Address, MemoryKind, Physical, PhysicalAddress, Virtual, VirtualAddress};
pub use constants::{PAGE_SHIFT, PAGE_SIZE, ENTRIES_IN_TABLE, CustomMemoryTypes};
pub use page_allocator::PageAllocator;
