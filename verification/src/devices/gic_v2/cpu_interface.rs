use vstd::prelude::*;

use super::regs::{RegWrite, GICC_CTLR, GICC_EOIR, GICC_PMR};
use crate::memory::constants::{LOW_ADDR_SPACE_END, PHYSICAL_LINEAR_MAPPING_START};
use crate::memory::{PhysicalAddress, VirtualAddress};

verus! {

/// The GICv2 CPU interface; the registers are read and written by the caller.
pub struct CpuInterface {
    base: VirtualAddress,
}

impl CpuInterface {
    pub closed spec fn base(&self) -> u64 {
        self.base@
    }

    /// The CPU interface whose registers are at `base`, read through the linear mapping, where
    /// `map_registers` maps them (see `GenericInterruptController::create`).
    pub fn new(base: PhysicalAddress) -> (r: Self)
        requires
            base@ != 0,
            base@ <= LOW_ADDR_SPACE_END,
        ensures
            r.base() == base@ + PHYSICAL_LINEAR_MAPPING_START,
    {
        Self { base: base.to_virt() }
    }

    /// The writes that enable group 0 interrupts (GICC_CTLR, whose value is `ctlr`) and accept
    /// every priority (GICC_PMR, whose value is `pmr`).
    pub fn init(&self, ctlr: u32, pmr: u32) -> (r: (RegWrite, RegWrite))
        ensures
            r.0 == (RegWrite { offset: GICC_CTLR, value: ctlr | 1 }),
            r.1 == (RegWrite { offset: GICC_PMR, value: (pmr & !0xFFu32) | 0xFF }),
    {
        (
            RegWrite { offset: GICC_CTLR, value: ctlr | 1 },
            RegWrite { offset: GICC_PMR, value: (pmr & !0xFFu32) | 0xFF },
        )
    }

    /// The interrupt id held by the GICC_IAR register value `iar`.
    pub fn get_current_intid(&self, iar: u32) -> (r: u32)
        ensures
            r == iar & 0x3FF,
            r < 1024,
    {
        assert(iar & 0x3FF < 1024) by (bit_vector);
        iar & 0x3FF
    }

    /// The write that signals the end of `interrupt`.
    pub fn eoi(&self, interrupt: u32) -> (r: RegWrite)
        ensures
            r == (RegWrite { offset: GICC_EOIR, value: interrupt }),
    {
        RegWrite { offset: GICC_EOIR, value: interrupt }
    }
}

} // verus!
