use vstd::prelude::*;

pub mod exceptions;

use crate::devices::gic_v2::regs::{RegWrite, GICC_EOIR};
use crate::devices::gic_v2::GenericInterruptController;

verus! {

/// How an interrupt is triggered.
#[derive(PartialEq, Eq, Structural, Clone, Copy, Debug)]
pub enum InterruptMode {
    LevelSensitive,
    EdgeTriggered,
}

/// The cores a software generated interrupt is sent to.
#[derive(PartialEq, Eq, Structural, Clone, Copy, Debug)]
pub enum CoreSelection {
    /// Each bit refers to the corresponding CPU (bit 0 for CPU 0). Set the bit to 1 to select.
    Mask(u8),
    Others,
    Me,
}

/// A message signaled interrupt: the interrupt, and the address and data to write to raise it.
#[derive(Clone, Debug)]
pub struct MsiVector {
    pub interrupt: u32,
    pub addr: u64,
    pub data: u32,
}

/// An interrupt controller. Its registers are read and written by the caller: a method takes
/// the current values of the registers it reads and returns the writes to perform.
pub trait InterruptsChip {
    /// The writes that set up the calling core's interface, whose control and priority mask
    /// registers hold `ctlr` and `pmr`.
    fn init_ap(&self, ctlr: u32, pmr: u32) -> (RegWrite, RegWrite);

    fn enable_interrupt(&self, interrupt: u32) -> RegWrite
        requires
            interrupt < 1024,
    ;

    fn disable_interrupt(&self, interrupt: u32) -> RegWrite
        requires
            interrupt < 1024,
    ;

    /// The interrupt being handled, read from the acknowledge register value `iar`.
    fn get_current_intid(&self, iar: u32) -> u32;

    fn end_of_interrupt(&self, interrupt: u32) -> RegWrite;

    /// The write that sends the software generated interrupt `interrupt_id` to `destination`.
    spec fn sgi_write(&self, destination: CoreSelection, interrupt_id: u8) -> RegWrite;

    /// Send a software generated interrupt.
    fn send_sgi(&self, destination: CoreSelection, interrupt_id: u8) -> (r: RegWrite)
        requires
            interrupt_id < 16,
        ensures
            r == self.sgi_write(destination, interrupt_id),
    ;

    /// Set the trigger mode of `interrupt`; `current` is the value of the register that holds it.
    fn set_mode(&self, interrupt: u32, mode: InterruptMode, current: u32) -> RegWrite
        requires
            interrupt < 1024,
    ;
}

/// A controller of message signaled interrupts.
pub trait MsiChip {
    /// A vector no one uses yet, if any is left.
    fn get_free_vector(&mut self) -> Option<MsiVector>;
}

/// The number of interrupt ids that can have a handler; higher ids are spurious.
pub const IRQ_COUNT: u32 = 1020;

/// The registered interrupt controller `C` and MSI controller `M`, each registered once.
pub struct Chips<C, M> {
    chip: Option<C>,
    msi_chip: Option<M>,
}

impl<C, M> Chips<C, M> {
    pub closed spec fn chip_spec(&self) -> Option<C> {
        self.chip
    }

    pub closed spec fn msi_chip_spec(&self) -> Option<M> {
        self.msi_chip
    }

    pub fn new() -> (r: Self)
        ensures
            r.chip_spec() is None,
            r.msi_chip_spec() is None,
    {
        Chips { chip: None, msi_chip: None }
    }

    /// Register the interrupt controller; it must not be registered yet.
    pub fn register_chip(&mut self, chip: C)
        requires
            old(self).chip_spec() is None,
        ensures
            final(self).chip_spec() == Some(chip),
            final(self).msi_chip_spec() == old(self).msi_chip_spec(),
    {
        self.chip = Some(chip);
    }

    /// The registered interrupt controller.
    pub fn chip(&self) -> (r: &C)
        requires
            self.chip_spec() is Some,
        ensures
            Some(*r) == self.chip_spec(),
    {
        self.chip.as_ref().unwrap()
    }

    /// Register the MSI controller; it must not be registered yet.
    pub fn register_msi_chip(&mut self, chip: M)
        requires
            old(self).msi_chip_spec() is None,
        ensures
            final(self).msi_chip_spec() == Some(chip),
            final(self).chip_spec() == old(self).chip_spec(),
    {
        self.msi_chip = Some(chip);
    }

    /// The registered MSI controller.
    pub fn msi_chip(&self) -> (r: &M)
        requires
            self.msi_chip_spec() is Some,
        ensures
            Some(*r) == self.msi_chip_spec(),
    {
        self.msi_chip.as_ref().unwrap()
    }
}

/// The handler (an entry point and the value handed to it) of each interrupt id.
pub struct IrqHandlers {
    handlers: Vec<Option<(usize, usize)>>,
}

impl IrqHandlers {
    pub closed spec fn view(&self) -> Seq<Option<(usize, usize)>> {
        self.handlers@
    }

    /// No interrupt has a handler.
    pub fn new() -> (r: Self)
        ensures
            r@.len() == IRQ_COUNT,
            forall|i: int| 0 <= i < IRQ_COUNT ==> r@[i] is None,
    {
        let mut handlers: Vec<Option<(usize, usize)>> = Vec::new();
        let mut i: u32 = 0;
        while i < IRQ_COUNT
            invariant
                i <= IRQ_COUNT,
                handlers@.len() == i,
                forall|k: int| 0 <= k < i ==> handlers@[k] is None,
            decreases IRQ_COUNT - i,
        {
            handlers.push(None);
            i += 1;
        }
        IrqHandlers { handlers }
    }

    /// Set the handler of interrupt `id`. The handler will be run with interrupts disabled.
    pub fn set_irq_handler(&mut self, id: u32, handler: usize, val: usize)
        requires
            old(self)@.len() == IRQ_COUNT,
            id < IRQ_COUNT,
        ensures
            final(self)@ == old(self)@.update(id as int, Some((handler, val))),
    {
        self.handlers.set(id as usize, Some((handler, val)));
    }

    /// The handler to run for the interrupt `id` acknowledged by the controller: `None` for a
    /// spurious interrupt (id 1020 and above), which is ignored.
    pub fn dispatch(&self, id: u32) -> (r: Option<(usize, usize)>)
        requires
            self@.len() == IRQ_COUNT,
        ensures
            id >= IRQ_COUNT ==> r is None,
            id < IRQ_COUNT ==> r == self@[id as int],
    {
        if id >= IRQ_COUNT {
            return None;
        }
        self.handlers[id as usize]
    }
}

/// What the interrupt entry does with an interrupt it acknowledged.
#[derive(PartialEq, Eq, Structural, Clone, Copy, Debug)]
pub enum IrqAction {
    /// A spurious interrupt (id 1020 and above): the interrupted code resumes, and no end of
    /// interrupt is signaled.
    Spurious,
    /// Run `handler` with `id`, the interrupted frame and `val`, with interrupts disabled; once
    /// it returns, signal the end of the interrupt with `eoi`, and resume the frame it returned.
    Handle { id: u32, handler: usize, val: usize, eoi: RegWrite },
}

/// The interrupt entry for the value `iar` read from the acknowledge register of `gic`: the
/// interrupt id it names, and for a real one the handler set for it and the end-of-interrupt
/// write that follows the handler. A real interrupt must have a handler.
pub fn interrupt_entry(handlers: &IrqHandlers, gic: &GenericInterruptController, iar: u32) -> (r: IrqAction)
    requires
        handlers@.len() == IRQ_COUNT,
        (iar & 0x3FF) < IRQ_COUNT ==> handlers@[(iar & 0x3FF) as int] is Some,
    ensures
        (iar & 0x3FF) >= IRQ_COUNT ==> r == IrqAction::Spurious,
        (iar & 0x3FF) < IRQ_COUNT ==> ({
            let (handler, val) = handlers@[(iar & 0x3FF) as int]->0;
            r == IrqAction::Handle {
                id: iar & 0x3FF,
                handler,
                val,
                eoi: RegWrite { offset: GICC_EOIR, value: iar & 0x3FF },
            }
        }),
{
    let id = gic.get_current_intid(iar);
    match handlers.dispatch(id) {
        None => IrqAction::Spurious,
        Some((handler, val)) => IrqAction::Handle { id, handler, val, eoi: gic.end_of_interrupt(id) },
    }
}

/// What setting a handler and then receiving its interrupt gives: the handler just set.
pub proof fn lemma_set_then_dispatch(h: Seq<Option<(usize, usize)>>, id: u32, handler: usize, val: usize)
    requires
        id < IRQ_COUNT,
        h.len() == IRQ_COUNT,
    ensures
        h.update(id as int, Some((handler, val)))[id as int] == Some((handler, val)),
{
}

} // verus!
