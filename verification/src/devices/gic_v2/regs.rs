use vstd::prelude::*;

verus! {

/// A write of `value` to the 32 bits register at byte `offset` of a register block.
#[derive(PartialEq, Eq, Structural, Clone, Copy, Debug)]
pub struct RegWrite {
    pub offset: usize,
    pub value: u32,
}

/// Distributor register offsets.
pub const GICD_CTLR: usize = 0x000;

pub const GICD_ISENABLER: usize = 0x100;

pub const GICD_ICENABLER: usize = 0x180;

pub const GICD_ITARGETSR: usize = 0x800;

pub const GICD_ICFGR: usize = 0xC00;

pub const GICD_SGIR: usize = 0xF00;

/// CPU interface register offsets.
pub const GICC_CTLR: usize = 0x0000;

pub const GICC_PMR: usize = 0x0004;

pub const GICC_EOIR: usize = 0x0010;

} // verus!
