use kernel::cpu::id;
use kernel::devices::gic_v2::cpu_interface::CpuInterface;
use kernel::devices::gic_v2::distributor::Distributor;
use kernel::devices::gic_v2::msi::MsiExtension;
use kernel::devices::gic_v2::regs::RegWrite;
use kernel::devices::gic_v2::GenericInterruptController;
use kernel::interrupts::exceptions::{
    abort_caused_by_write, disable_exceptions_depth, fault_kind, restore_exceptions_depth,
    CpuException, DaifState, FaultKind,
};
use kernel::interrupts::{interrupt_entry, Chips, CoreSelection, InterruptMode, InterruptsChip, IrqAction, IrqHandlers, MsiChip};
use kernel::memory::address::PhysicalAddress;
use kernel::scheduler::yield_now;

#[test]
fn esr_decoding() {
    assert_eq!(CpuException::from_esr(0x5600_0000, 0), CpuException::SvcInstruction);
    assert_eq!(CpuException::from_esr(0x9600_0045, 0x1234), CpuException::DataAbort(0x1234, 0x9600_0045));
    assert_eq!(CpuException::from_esr(0x0000_0007, 0), CpuException::Unknown(7));
    assert_eq!(CpuException::from_esr(0xBC00_0000, 0), CpuException::SError);
    assert_eq!(CpuException::from_esr(0x0400_0000, 0), CpuException::NotImplemented(0x0400_0000));
}

#[test]
fn fault_kinds() {
    assert_eq!(fault_kind(0x9600_0045), FaultKind::Translation(1));
    assert_eq!(fault_kind(0x9600_0021), FaultKind::Alignment);
    assert_eq!(fault_kind(0x9600_000F), FaultKind::Permission(3));
    assert!(abort_caused_by_write(0x9600_0045 | (1 << 6)));
    assert!(!abort_caused_by_write(0x9600_0005));
}

#[test]
fn exceptions_depth_counts() {
    let mut depth = 0u32;
    assert!(disable_exceptions_depth(&mut depth));
    assert!(!disable_exceptions_depth(&mut depth));
    assert_eq!(depth, 2);
    assert!(!restore_exceptions_depth(&mut depth));
    assert!(restore_exceptions_depth(&mut depth));
    assert_eq!(depth, 0);
}

#[test]
fn cpu_id_from_mpidr() {
    assert_eq!(id(0x8000_0003), 3);
    assert_eq!(id(0x0000_0102), 0x102);
}

#[test]
fn irq_handlers_set_then_dispatch() {
    let mut h = IrqHandlers::new();
    assert_eq!(h.dispatch(33), None);
    h.set_irq_handler(33, 0x1000, 7);
    assert_eq!(h.dispatch(33), Some((0x1000, 7)));
    assert_eq!(h.dispatch(1023), None);
}

#[test]
fn chips_registered_once() {
    let mut c: Chips<u32, u8> = Chips::new();
    c.register_chip(5);
    c.register_msi_chip(6);
    assert_eq!(*c.chip(), 5);
    assert_eq!(*c.msi_chip(), 6);
}

#[test]
fn distributor_writes() {
    let d = Distributor::new(PhysicalAddress::new(0x0800_0000), 3);
    assert_eq!(d.enable_interrupt(33), RegWrite { offset: 0x104, value: 2 });
    assert_eq!(d.disable_interrupt(31), RegWrite { offset: 0x180, value: 1 << 31 });
    assert_eq!(d.send_sgi(CoreSelection::Mask(0b101), 3), RegWrite { offset: 0xF00, value: (0b101 << 16) | 3 });
    assert_eq!(d.send_sgi(CoreSelection::Others, 1), RegWrite { offset: 0xF00, value: (1 << 24) | 1 });
    assert_eq!(d.set_mode(17, InterruptMode::EdgeTriggered, 0), RegWrite { offset: 0xC04, value: 1 << 3 });
    assert_eq!(d.set_mode(17, InterruptMode::LevelSensitive, 0xFF), RegWrite { offset: 0xC04, value: 0xF7 });
}

#[test]
fn distributor_init_targets_shared_interrupts() {
    // 3 + 1 = 4 groups of 32 interrupts: 128 lines, 32 ITARGETSR registers
    let d = Distributor::new(PhysicalAddress::new(0x0800_0000), 3);
    let mut regs = vec![0u32; 255];
    assert_eq!(d.init(&mut regs), RegWrite { offset: 0, value: 1 });
    assert_eq!(regs[7], 0);
    assert_eq!(regs[8], 0x0101_0101);
    assert_eq!(regs[31], 0x0101_0101);
    assert_eq!(regs[32], 0);
}

#[test]
fn cpu_interface_writes() {
    let c = CpuInterface::new(PhysicalAddress::new(0x0801_0000));
    let (ctlr, pmr) = c.init(0, 0x1234_5600);
    assert_eq!(ctlr, RegWrite { offset: 0, value: 1 });
    assert_eq!(pmr, RegWrite { offset: 4, value: 0x1234_56FF });
    assert_eq!(c.get_current_intid(0xFFFF_FC21), 0x021);
    assert_eq!(c.eoi(30), RegWrite { offset: 0x10, value: 30 });
}

#[test]
fn gic_as_interrupts_chip() {
    let g = GenericInterruptController::new(
        PhysicalAddress::new(0x0800_0000),
        PhysicalAddress::new(0x0801_0000),
        0,
    );
    assert_eq!(g.enable_interrupt(64), RegWrite { offset: 0x108, value: 1 });
    assert_eq!(g.end_of_interrupt(64), RegWrite { offset: 0x10, value: 64 });
    assert_eq!(g.get_current_intid(0x3FF), 0x3FF);
    assert_eq!(yield_now(&g), RegWrite { offset: 0xF00, value: 2 << 24 });
}

#[test]
fn msi_vectors_handed_out_in_order() {
    // base spi 64, 2 spis
    let mut m = MsiExtension::new((64 << 16) | 2, 0x0802_0040);
    let a = MsiChip::get_free_vector(&mut m).unwrap();
    assert_eq!((a.interrupt, a.addr, a.data), (64, 0x0802_0040, 64));
    let b = m.get_free_vector().unwrap();
    assert_eq!(b.interrupt, 65);
    let c = m.get_free_vector().unwrap();
    assert_eq!(c.interrupt, 66);
    assert!(m.get_free_vector().is_none());
}

#[test]
fn exception_messages() {
    assert_eq!(
        CpuException::from_esr(0x9600_0045, 0x1000).message(),
        "Cpu exception: Data Abort at 0x1000: Translation fault LL=1 caused by a write operation or cache maintenance/address translation"
    );
    assert_eq!(
        CpuException::from_esr(0x9600_0005, 0x20).message(),
        "Cpu exception: Data Abort at 0x20: Translation fault LL=1 caused by a read operation"
    );
    assert_eq!(CpuException::Unknown(0x1234).message(), "Cpu exception: Unkown Exception ESR: 0x00001234");
    assert_eq!(
        CpuException::from_esr(0x0400_0005, 0).message(),
        "Cpu exception: Unimplemented Exception: ESR_EL1: 0x4000005 EC: 0x1 ISS: 0b00000000000000000000101"
    );
    assert_eq!(
        CpuException::from_esr(0x8600_003C, 0xFFFF_0000).message(),
        "Cpu exception: Instruction Abort at 0xffff0000: Unkown fault ESR_EL1: 0x8600003C"
    );
    assert_eq!(CpuException::SvcInstruction.message(), "Cpu exception: SVC Instruction Exception");
}

#[test]
fn daif_state_messages() {
    assert_eq!(DaifState(0x80 | 0b1111).message(), "IrqState(All masked)");
    assert_eq!(DaifState(0x80).message(), "IrqState(FIQ, IRQ, SError, Debug)");
    assert_eq!(DaifState(0x80 | 0b0010).message(), "IrqState(FIQSError, Debug)");
    assert_eq!(DaifState(0x80 | 0b1110).message(), "IrqState(FIQ)");
}

#[test]
fn interrupt_entry_runs_handler_then_eoi() {
    let g = GenericInterruptController::new(
        PhysicalAddress::new(0x0800_0000),
        PhysicalAddress::new(0x0801_0000),
        0,
    );
    let mut h = IrqHandlers::new();
    h.set_irq_handler(30, 0x4000, 9);
    assert_eq!(
        interrupt_entry(&h, &g, 0xFFFF_FC1E),
        IrqAction::Handle { id: 30, handler: 0x4000, val: 9, eoi: RegWrite { offset: 0x10, value: 30 } }
    );
    assert_eq!(interrupt_entry(&h, &g, 0x3FF), IrqAction::Spurious);
    assert_eq!(interrupt_entry(&h, &g, 1020), IrqAction::Spurious);
}

#[test]
fn distributor_lines_bounded() {
    assert_eq!(Distributor::new(PhysicalAddress::new(0x0800_0000), 3).irq_lines(), 128);
    assert_eq!(Distributor::new(PhysicalAddress::new(0x0800_0000), 0xFFFF_FFFF).irq_lines(), 1024);
}
