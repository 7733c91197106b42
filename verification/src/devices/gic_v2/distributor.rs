use vstd::prelude::*;

use super::regs::{
    RegWrite, GICD_CTLR, GICD_ICENABLER, GICD_ICFGR, GICD_ISENABLER, GICD_SGIR,
};
use crate::interrupts::{CoreSelection, InterruptMode};
use crate::memory::constants::{LOW_ADDR_SPACE_END, PHYSICAL_LINEAR_MAPPING_START};
use crate::memory::{PhysicalAddress, VirtualAddress};

verus! {

/// The GICD_ISENABLER write that enables `interrupt`: its bit in the register of its group of 32.
pub open spec fn enable_write(interrupt: u32) -> RegWrite {
    RegWrite {
        offset: (GICD_ISENABLER + 4 * (interrupt / 32)) as usize,
        value: 1u32 << (interrupt % 32),
    }
}

/// The GICD_ICENABLER write that disables `interrupt`.
pub open spec fn disable_write(interrupt: u32) -> RegWrite {
    RegWrite {
        offset: (GICD_ICENABLER + 4 * (interrupt / 32)) as usize,
        value: 1u32 << (interrupt % 32),
    }
}

/// The interrupts whose bit is 1 in the value of `w`, when `w` writes the register of their
/// group of 32 in the block that starts at `block`.
pub open spec fn written_bits(w: RegWrite, block: usize) -> Set<int> {
    Set::new(
        |i: int|
            0 <= i < 1024 && block + 4 * (i / 32) == w.offset && (w.value >> ((i % 32) as u32))
                & 1u32 == 1u32,
    )
}

/// The interrupts enabled in the distributor after the write `w`, when `enabled` were enabled
/// before: a 1 bit written to a GICD_ISENABLER register enables its interrupt, one written to a
/// GICD_ICENABLER register disables it, and 0 bits and other registers change nothing.
pub open spec fn enabled_after(enabled: Set<int>, w: RegWrite) -> Set<int> {
    enabled.union(written_bits(w, GICD_ISENABLER)).difference(written_bits(w, GICD_ICENABLER))
}

/// Bit `k` of a value with only bit `s` set is 1 exactly when `k` is `s`.
proof fn lemma_single_bit(s: u32, k: u32)
    requires
        s < 32,
        k < 32,
    ensures
        ((1u32 << s) >> k) & 1u32 == 1u32 <==> k == s,
{
    assert(((1u32 << s) >> k) & 1u32 == 1u32 <==> k == s) by (bit_vector)
        requires
            s < 32,
            k < 32,
    ;
}

/// The write of `enable_interrupt` enables exactly that interrupt, the write of
/// `disable_interrupt` disables exactly that one, and disabling an interrupt after enabling it
/// leaves the others as they were, with that one disabled.
pub proof fn lemma_enable_disable(enabled: Set<int>, interrupt: u32)
    requires
        interrupt < 1024,
    ensures
        enabled_after(enabled, enable_write(interrupt)) == enabled.insert(interrupt as int),
        enabled_after(enabled, disable_write(interrupt)) == enabled.remove(interrupt as int),
        enabled_after(enabled_after(enabled, enable_write(interrupt)), disable_write(interrupt))
            == enabled.remove(interrupt as int),
{
    let i = interrupt as int;
    assert forall|j: int, block: usize, w: RegWrite|
        (block == GICD_ISENABLER || block == GICD_ICENABLER) && (w == enable_write(interrupt)
            || w == disable_write(interrupt)) implies #[trigger] written_bits(w, block).contains(j)
        <==> (0 <= j < 1024 && block + 4 * (j / 32) == w.offset && j == i) by {
        if 0 <= j < 1024 && block + 4 * (j / 32) == w.offset {
            assert(j / 32 == i / 32);
            lemma_single_bit(interrupt % 32, (j % 32) as u32);
        }
    }
    assert(enabled_after(enabled, enable_write(interrupt)) =~= enabled.insert(i));
    assert(enabled_after(enabled, disable_write(interrupt)) =~= enabled.remove(i));
    assert(enabled_after(enabled.insert(i), disable_write(interrupt)) =~= enabled.remove(i));
}

/// The GICv2 distributor; the registers are written by the caller.
pub struct Distributor {
    base: VirtualAddress,
    irq_count: usize,
}

impl Distributor {
    /// The distributor handles a whole number of groups of 32 interrupt lines, 1024 at most.
    #[verifier::type_invariant]
    spec fn lines_wf(self) -> bool {
        &&& 32 <= self.irq_count <= 1024
        &&& self.irq_count % 32 == 0
    }

    pub closed spec fn base(&self) -> u64 {
        self.base@
    }

    /// The number of interrupt lines: whole groups of 32, at most 1024, so that every line is
    /// one that `enable_interrupt` and `disable_interrupt` take (see `lemma_enable_disable`).
    pub fn irq_lines(&self) -> (r: usize)
        ensures
            r == self.irq_count(),
            32 <= r <= 1024,
            r % 32 == 0,
    {
        proof {
            use_type_invariant(self);
        }
        self.irq_count
    }

    pub closed spec fn irq_count(&self) -> int {
        self.irq_count as int
    }

    /// The distributor whose registers are at `base` (read through the linear mapping, where
    /// `map_registers` maps them, see `GenericInterruptController::create`), with the interrupt
    /// lines count given by its GICD_TYPER register value `typer`.
    pub fn new(base: PhysicalAddress, typer: u32) -> (r: Self)
        requires
            base@ != 0,
            base@ <= LOW_ADDR_SPACE_END,
        ensures
            r.base() == base@ + PHYSICAL_LINEAR_MAPPING_START,
            r.irq_count() == ((typer & 0x1F) + 1) * 32,
    {
        let it_lines_count = typer & 0x1F;
        assert(typer & 0x1F <= 31) by (bit_vector);
        let irq_count = (it_lines_count as usize + 1) * 32;
        assert(irq_count % 32 == 0) by (nonlinear_arith)
            requires
                irq_count == (it_lines_count as usize + 1) * 32,
        ;
        Self { base: base.to_virt(), irq_count }
    }

    /// Target every shared interrupt (32 and above) to CPU 0 in the GICD_ITARGETSR registers
    /// `itargetsr`, then return the write that enables the distributor.
    pub fn init(&self, itargetsr: &mut Vec<u32>) -> (r: RegWrite)
        requires
            old(itargetsr)@.len() == 255,
            self.irq_count() <= 1020,
            self.irq_count() % 4 == 0,
        ensures
            final(itargetsr)@.len() == 255,
            forall|n: int|
                0 <= n < 255 ==> final(itargetsr)@[n] == if 8 <= n < self.irq_count() / 4 {
                    old(itargetsr)@[n] | 0x0101_0101
                } else {
                    old(itargetsr)@[n]
                },
            r == (RegWrite { offset: GICD_CTLR, value: 1 }),
    {
        let ghost old_regs = itargetsr@;
        let end = self.irq_count / 4;
        let mut n: usize = 8;
        while n < end
            invariant
                8 <= n,
                n <= 8 || n <= end,
                end == self.irq_count() / 4,
                end <= 255,
                itargetsr@.len() == 255,
                forall|k: int|
                    0 <= k < 255 ==> itargetsr@[k] == if 8 <= k < n && k < end {
                        old_regs[k] | 0x0101_0101
                    } else {
                        old_regs[k]
                    },
            decreases end - n,
        {
            let v = itargetsr[n];
            itargetsr.set(n, v | 0x0101_0101);
            n += 1;
        }
        RegWrite { offset: GICD_CTLR, value: 1 }
    }

    /// The write that enables `interrupt`.
    pub fn enable_interrupt(&self, interrupt: u32) -> (r: RegWrite)
        requires
            interrupt < 1024,
        ensures
            r == enable_write(interrupt),
    {
        let n = interrupt / 32;
        RegWrite { offset: GICD_ISENABLER + 4 * n as usize, value: 1u32 << (interrupt % 32) }
    }

    /// The write that disables `interrupt`.
    pub fn disable_interrupt(&self, interrupt: u32) -> (r: RegWrite)
        requires
            interrupt < 1024,
        ensures
            r == disable_write(interrupt),
    {
        let n = interrupt / 32;
        RegWrite { offset: GICD_ICENABLER + 4 * n as usize, value: 1u32 << (interrupt % 32) }
    }

    /// The GICD_SGIR write that sends the software generated interrupt `interrupt_id`.
    pub fn send_sgi(&self, destination: CoreSelection, interrupt_id: u8) -> (r: RegWrite)
        requires
            interrupt_id < 16,
        ensures
            r.offset == GICD_SGIR,
            r.value == match destination {
                CoreSelection::Mask(mask) => ((mask as u32) << 16u32) | (interrupt_id as u32),
                CoreSelection::Others => (1u32 << 24u32) | (interrupt_id as u32),
                CoreSelection::Me => (2u32 << 24u32) | (interrupt_id as u32),
            },
    {
        let (list_filter, target_list): (u32, u8) = match destination {
            CoreSelection::Mask(mask) => (0, mask),
            CoreSelection::Others => (1, 0),
            CoreSelection::Me => (2, 0),
        };
        let value = (list_filter << 24u32) | ((target_list as u32) << 16u32) | (interrupt_id as u32);
        proof {
            let t = target_list as u32;
            let i = interrupt_id as u32;
            assert((0u32 << 24u32) | (t << 16u32) | i == (t << 16u32) | i && (1u32 << 24u32) | (0u32 << 16u32) | i
                == (1u32 << 24u32) | i && (2u32 << 24u32) | (0u32 << 16u32) | i == (2u32 << 24u32) | i)
                by (bit_vector);
        }
        RegWrite { offset: GICD_SGIR, value }
    }

    /// The write of the GICD_ICFGR register, whose value is `current`, that sets the trigger
    /// mode of `interrupt`.
    pub fn set_mode(&self, interrupt: u32, mode: InterruptMode, current: u32) -> (r: RegWrite)
        requires
            interrupt < 1024,
        ensures
            ({
                let off = (interrupt % 16) * 2 + 1;
                &&& r.offset == GICD_ICFGR + 4 * (interrupt / 16)
                &&& r.value == match mode {
                    InterruptMode::EdgeTriggered => current | (1u32 << off),
                    InterruptMode::LevelSensitive => current & !(1u32 << off),
                }
            }),
    {
        let off = (interrupt % 16) * 2 + 1;
        let value = match mode {
            InterruptMode::EdgeTriggered => current | (1u32 << off),
            InterruptMode::LevelSensitive => current & !(1u32 << off),
        };
        RegWrite { offset: GICD_ICFGR + 4 * (interrupt / 16) as usize, value }
    }
}

} // verus!
