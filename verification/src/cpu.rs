use vstd::prelude::*;

verus! {

/// The registers saved on the kernel stack when an exception is taken, in the layout the
/// exception vectors use (`InterruptFrame::SIZE` bytes).
#[derive(Clone, Copy, Debug)]
pub struct InterruptFrame {
    pub x0: u64,
    pub x1: u64,
    pub x2: u64,
    pub x3: u64,
    pub x4: u64,
    pub x5: u64,
    pub x6: u64,
    pub x7: u64,
    pub x8: u64,
    pub x9: u64,
    pub x10: u64,
    pub x11: u64,
    pub x12: u64,
    pub x13: u64,
    pub x14: u64,
    pub x15: u64,
    pub x16: u64,
    pub x17: u64,
    pub x18: u64,
    pub x19: u64,
    pub x20: u64,
    pub x21: u64,
    pub x22: u64,
    pub x23: u64,
    pub x24: u64,
    pub x25: u64,
    pub x26: u64,
    pub x27: u64,
    pub x28: u64,
    pub x29: u64,
    pub x30: u64,
    pub sp: u64,
    pub pc: u64,
    pub pstate: u64,
}

impl InterruptFrame {
    /// The size in bytes of a saved frame.
    pub const SIZE: u64 = 272;
}

/// The id of the core whose MPIDR_EL1 register holds `mpidr`: the register without bit 31,
/// which is always set.
pub fn id(mpidr: u64) -> (r: u32)
    ensures
        r == (mpidr & !0x8000_0000u64) as u32,
{
    (mpidr & !0x8000_0000u64) as u32
}

} // verus!
