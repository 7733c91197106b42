use vstd::prelude::*;

pub mod cpu_interface;
pub mod distributor;
pub mod msi;
pub mod regs;

use self::cpu_interface::CpuInterface;
use self::distributor::Distributor;
use self::regs::{RegWrite, GICC_CTLR, GICC_EOIR, GICC_PMR, GICD_ICENABLER, GICD_ICFGR, GICD_ISENABLER, GICD_SGIR};
use crate::interrupts::{CoreSelection, InterruptMode, InterruptsChip};
use crate::memory::constants::{LOW_ADDR_SPACE_END, PHYSICAL_LINEAR_MAPPING_START};
use crate::memory::PhysicalAddress;
use crate::memory::address::Physical;
use crate::memory::page_allocator::PageAllocator;
use crate::memory::tables::{
    allocations_kept, find_table, grows, lemma_index_bound, maps_slot, space_wf, top_blocked, translate, va_index, TablesView,
    VirtualAddressSpace,
};
use crate::memory::frame::same_slot;
use crate::memory::page_allocator::{lemma_took_trans, took_at_most};
use crate::memory::vmm::{in_low_addr_space, MapFlags, MapOptions, MapSize, VirtualMemoryManager};
use crate::error::{Error, MemoryError};
use vstd::string::StringSliceAdditionalSpecFns;
use crate::device_tree::{
    be_u64, first_named_property, reg_name, node_children, node_properties, Node, NodeView,
};

verus! {

/// Map the 4 KiB page of device registers at `base` in the kernel address space `kernel_space`,
/// at the linear mapping address of `base`, as device memory (attribute index 2) with the
/// given shareability, in place of what was mapped there.
pub fn map_registers<P: PageAllocator<Physical>>(
    vmm: &mut VirtualMemoryManager<P>,
    base: PhysicalAddress,
    shareability: u8,
    kernel_space: VirtualAddressSpace,
) -> (r: Result<(), Error>)
    requires
        old(vmm).wf(),
        space_wf(old(vmm).tables(), kernel_space),
        !kernel_space.is_low,
        base@ <= LOW_ADDR_SPACE_END,
        base@ % 0x1000 == 0,
        shareability <= 0b11,
    ensures
        final(vmm).wf(),
        space_wf(final(vmm).tables(), kernel_space),
        grows(old(vmm).tables(), final(vmm).tables()),
        allocations_kept(old(vmm).pages(), final(vmm).pages()),
        r is Ok ==> maps_slot(
            final(vmm).tables(),
            kernel_space,
            (base@ + PHYSICAL_LINEAR_MAPPING_START) as u64,
            base@,
            3,
        ),
        r matches Err(e) ==> e == Error::Memory(MemoryError::AlreadyMapped) || e == Error::Memory(
            MemoryError::OutOfPhysicalMemory,
        ),
        took_at_most(old(vmm).pages(), final(vmm).pages(), 5),
        r matches Err(e) && e == Error::Memory(MemoryError::AlreadyMapped) ==> top_blocked(
            old(vmm).tables(),
            kernel_space,
            (base@ + PHYSICAL_LINEAR_MAPPING_START) as u64,
        ),
        r matches Err(e) && e == Error::Memory(MemoryError::OutOfPhysicalMemory) ==> !old(vmm).pages().has_room(5),
        !top_blocked(old(vmm).tables(), kernel_space, (base@ + PHYSICAL_LINEAR_MAPPING_START) as u64)
            && old(vmm).pages().has_room(5) ==> r is Ok,
        r is Ok ==> !top_blocked(final(vmm).tables(), kernel_space, (base@ + PHYSICAL_LINEAR_MAPPING_START) as u64),
{
    assert(shareability <= 0b11 ==> shareability & 0b11 == shareability && 2u8 & 0b111u8 == 2u8
        && (0u8 | 0u8 | (shareability << 2u8) | (2u8 << 4u8) | 0x80u8) & 0x80 != 0) by (bit_vector);
    let flags = MapFlags::new(false, false, shareability, 2, true);
    let from = base.copy().to_virt();
    assert(from@ % 0x1000 == 0) by {
        assert(PHYSICAL_LINEAR_MAPPING_START % 0x1000 == 0);
    }
    let r = vmm.map_page(from, base, MapOptions::new(MapSize::Size4KB, flags), kernel_space);
    proof {
        assert(!in_low_addr_space(from@));
        if r is Ok {
            let w = vmm.tables();
            let x = from@;
            assert(same_slot(kernel_space, x, x, 3));
            assert(translate(w, kernel_space, x) is Some);
            let kr = find_table(w, kernel_space.root).unwrap();
            assert(w.levels[kr] == 0);
            lemma_index_bound(x, 0);
        }
    }
    match r {
        Ok(_) => Ok(()),
        Err(e) => Err(e),
    }
}

/// The name of the property that marks an interrupt controller node.
pub open spec fn interrupt_controller_name() -> Seq<u8> {
    seq![105, 110, 116, 101, 114, 114, 117, 112, 116, 45, 99, 111, 110, 116, 114, 111, 108, 108, 101, 114]
}

/// How the name of the MSI frame node of a GICv2 starts: `v2m@`.
pub open spec fn v2m_prefix() -> Seq<u8> {
    seq![118, 50, 109, 64]
}

/// The first node of `s` whose name starts with `p`.
pub open spec fn first_prefixed(s: Seq<NodeView>, p: Seq<u8>) -> Option<NodeView>
    decreases s.len(),
{
    if s.len() == 0 {
        None
    } else if p.len() <= s[0].0.len() && s[0].0.subrange(0, p.len() as int) == p {
        Some(s[0])
    } else {
        first_prefixed(s.drop_first(), p)
    }
}

/// The physical addresses of the register blocks of a GICv2.
#[derive(PartialEq, Eq, Structural, Clone, Copy, Debug)]
pub struct GicAddresses {
    pub distributor: u64,
    pub cpu_interface: u64,
    /// The MSI frame, when the controller has one.
    pub msi_frame: Option<u64>,
}

/// What the interrupt controller node `n` describes: it is marked `interrupt-controller`, uses
/// two cells for addresses and sizes, and its `reg` holds the distributor block then the CPU
/// interface block; the first child named `v2m@...` is its MSI frame, whose `reg` starts with
/// the frame's address. `None` when the node does not describe a controller that way.
pub open spec fn gic_addresses(n: NodeView, strs: Seq<u8>) -> Option<GicAddresses> {
    let props = node_properties(n, strs);
    match (
        first_named_property(props, interrupt_controller_name()),
        first_named_property(props, reg_name()),
    ) {
        (Some(_), Some(reg)) => if n.2 == 2 && n.3 == 2 && reg.1.len() >= 24 {
            match first_prefixed(node_children(n, strs), v2m_prefix()) {
                None => Some(
                    GicAddresses {
                        distributor: be_u64(reg.1, 0),
                        cpu_interface: be_u64(reg.1, 16),
                        msi_frame: None,
                    },
                ),
                Some(c) => match first_named_property(node_properties(c, strs), reg_name()) {
                    Some(creg) => if creg.1.len() >= 8 {
                        Some(
                            GicAddresses {
                                distributor: be_u64(reg.1, 0),
                                cpu_interface: be_u64(reg.1, 16),
                                msi_frame: Some(be_u64(creg.1, 0)),
                            },
                        )
                    } else {
                        None
                    },
                    None => None,
                },
            }
        } else {
            None
        },
        _ => None,
    }
}

proof fn lemma_names()
    ensures
        "interrupt-controller".spec_bytes() == interrupt_controller_name(),
        "reg".spec_bytes() == reg_name(),
{
    reveal_strlit("interrupt-controller");
    vstd::string::is_ascii_spec_bytes("interrupt-controller");
    assert("interrupt-controller".spec_bytes() =~= interrupt_controller_name());
    crate::device_tree::lemma_reg_name();
}


/// A GICv2: its CPU interface and its distributor.
pub struct GenericInterruptController {
    cpu_interface: CpuInterface,
    distributor: Distributor,
}

impl GenericInterruptController {
    pub closed spec fn dist(&self) -> Distributor {
        self.distributor
    }

    pub closed spec fn cpu(&self) -> CpuInterface {
        self.cpu_interface
    }

    /// The register blocks that the interrupt controller node `intc` (the device tree's
    /// `/intc`) describes; `None` where it does not describe them as `gic_addresses` says.
    pub fn locate(intc: &Node) -> (r: Option<GicAddresses>)
        requires
            intc.wf(),
        ensures
            r == gic_addresses(intc@, intc.strs()),
    {
        proof {
            lemma_names();
        }
        if intc.get_property("interrupt-controller").is_none() {
            return None;
        }
        let reg = match intc.get_property("reg") {
            Some(p) => p,
            None => return None,
        };
        if intc.address_cells() != 2 || intc.size_cells() != 2 {
            return None;
        }
        let mut b = reg.buff();
        let distributor = match b.consume_be_u64() {
            Some(v) => v,
            None => return None,
        };
        if b.advance_by(8).is_err() {
            return None;
        }
        let cpu_interface = match b.consume_be_u64() {
            Some(v) => v,
            None => return None,
        };
        let prefix: [u8; 4] = [118, 50, 109, 64];
        proof {
            assert(prefix@ =~= v2m_prefix());
        }
        let mut it = intc.children();
        let ghost strs = intc.strs();
        let ghost all = node_children(intc@, strs);
        loop
            invariant
                it.wf(),
                it.strs() == strs,
                strs == intc.strs(),
                all == node_children(intc@, strs),
                prefix@ == v2m_prefix(),
                reg_name() == "reg".spec_bytes(),
                intc.wf(),
                intc@.2 == 2 && intc@.3 == 2,
                first_named_property(node_properties(intc@, strs), interrupt_controller_name())
                    is Some,
                first_named_property(node_properties(intc@, strs), reg_name()) == Some(reg@),
                reg@.1.len() >= 24,
                distributor == be_u64(reg@.1, 0),
                cpu_interface == be_u64(reg@.1, 16),
                first_prefixed(all, v2m_prefix()) == first_prefixed(it.remaining(), v2m_prefix()),
            decreases it.remaining().len(),
        {
            match it.next() {
                None => {
                    return Some(GicAddresses { distributor, cpu_interface, msi_frame: None });
                },
                Some(c) => {
                    if crate::utils::bytes_starts_with(c.name().as_bytes(), &prefix) {
                        let creg = match c.get_property("reg") {
                            Some(p) => p,
                            None => return None,
                        };
                        let mut cb = creg.buff();
                        return match cb.consume_be_u64() {
                            Some(a) => Some(
                                GicAddresses { distributor, cpu_interface, msi_frame: Some(a) },
                            ),
                            None => None,
                        };
                    }
                },
            }
        }
    }

    /// The controller whose distributor and CPU interface are at the given physical addresses;
    /// `typer` is the value of the distributor's GICD_TYPER register.
    pub fn new(distributor: PhysicalAddress, cpu_interface: PhysicalAddress, typer: u32) -> (r:
        Self)
        requires
            distributor@ != 0,
            distributor@ <= LOW_ADDR_SPACE_END,
            cpu_interface@ != 0,
            cpu_interface@ <= LOW_ADDR_SPACE_END,
        ensures
            r.dist().base() == distributor@ + PHYSICAL_LINEAR_MAPPING_START,
            r.dist().irq_count() == ((typer & 0x1F) + 1) * 32,
            r.cpu().base() == cpu_interface@ + PHYSICAL_LINEAR_MAPPING_START,
    {
        GenericInterruptController {
            cpu_interface: CpuInterface::new(cpu_interface),
            distributor: Distributor::new(distributor, typer),
        }
    }

    /// Map the register pages of the CPU interface (inner shareable) and of the distributor (not
    /// shareable) in the kernel address space `kernel_space`, then make the controller as `new`
    /// does. Stops at the first mapping that fails and returns its error.
    pub fn create<P: PageAllocator<Physical>>(
        distributor: PhysicalAddress,
        cpu_interface: PhysicalAddress,
        typer: u32,
        vmm: &mut VirtualMemoryManager<P>,
        kernel_space: VirtualAddressSpace,
    ) -> (r: Result<Self, Error>)
        requires
            old(vmm).wf(),
            space_wf(old(vmm).tables(), kernel_space),
            !kernel_space.is_low,
            distributor@ != 0,
            distributor@ <= LOW_ADDR_SPACE_END,
            distributor@ % 0x1000 == 0,
            cpu_interface@ != 0,
            cpu_interface@ <= LOW_ADDR_SPACE_END,
            cpu_interface@ % 0x1000 == 0,
        ensures
            final(vmm).wf(),
            space_wf(final(vmm).tables(), kernel_space),
            grows(old(vmm).tables(), final(vmm).tables()),
            allocations_kept(old(vmm).pages(), final(vmm).pages()),
            r matches Ok(g) ==> {
                &&& g.dist().base() == distributor@ + PHYSICAL_LINEAR_MAPPING_START
                &&& g.dist().irq_count() == ((typer & 0x1F) + 1) * 32
                &&& g.cpu().base() == cpu_interface@ + PHYSICAL_LINEAR_MAPPING_START
                &&& maps_slot(final(vmm).tables(), kernel_space, g.dist().base() as u64, distributor@, 3)
            },
            r is Ok ==> exists|mid: TablesView|
                grows(old(vmm).tables(), mid) && grows(mid, final(vmm).tables()) && #[trigger] maps_slot(
                    mid,
                    kernel_space,
                    (cpu_interface@ + PHYSICAL_LINEAR_MAPPING_START) as u64,
                    cpu_interface@,
                    3,
                ),
            r matches Err(e) ==> e == Error::Memory(MemoryError::AlreadyMapped) || e == Error::Memory(
                MemoryError::OutOfPhysicalMemory,
            ),
            took_at_most(old(vmm).pages(), final(vmm).pages(), 10),
            r matches Err(e) && e == Error::Memory(MemoryError::AlreadyMapped) ==> top_blocked(
                old(vmm).tables(),
                kernel_space,
                (cpu_interface@ + PHYSICAL_LINEAR_MAPPING_START) as u64,
            ) || va_index((distributor@ + PHYSICAL_LINEAR_MAPPING_START) as u64, 0) != va_index(
                (cpu_interface@ + PHYSICAL_LINEAR_MAPPING_START) as u64,
                0,
            ),
            r matches Err(e) && e == Error::Memory(MemoryError::OutOfPhysicalMemory) ==> !old(vmm).pages().has_room(10),
            !top_blocked(old(vmm).tables(), kernel_space, (cpu_interface@ + PHYSICAL_LINEAR_MAPPING_START) as u64)
                && va_index((distributor@ + PHYSICAL_LINEAR_MAPPING_START) as u64, 0) == va_index(
                (cpu_interface@ + PHYSICAL_LINEAR_MAPPING_START) as u64,
                0,
            ) && old(vmm).pages().has_room(10) ==> r is Ok,
    {
        let ghost t0 = vmm.tables();
        let ghost p0 = vmm.pages();
        proof {
            if p0.has_room(10) {
                p0.lemma_room_less(10, 5);
            }
        }
        let first = map_registers(vmm, cpu_interface.copy(), 0b11, kernel_space);
        proof {
            crate::memory::page_allocator::lemma_took_more(p0, vmm.pages(), 5, 10);
        }
        first?;
        let ghost mid = vmm.tables();
        let ghost p1 = vmm.pages();
        proof {
            if p0.has_room(10) {
                crate::memory::page_allocator::lemma_room_after(p0, p1, 5, 10, 5);
            }
        }
        let mapped = map_registers(vmm, distributor.copy(), 0b00, kernel_space);
        proof {
            crate::memory::tables::lemma_grows_trans(t0, mid, vmm.tables());
            crate::memory::tables::lemma_kept_trans(old(vmm).pages(), p1, vmm.pages());
            lemma_took_trans(p0, p1, vmm.pages(), 5, 5);
        }
        mapped?;
        Ok(Self::new(distributor, cpu_interface, typer))
    }

    pub fn distributor(&self) -> (r: &Distributor)
        ensures
            *r == self.dist(),
    {
        &self.distributor
    }

    pub fn cpu_interface(&self) -> (r: &CpuInterface)
        ensures
            *r == self.cpu(),
    {
        &self.cpu_interface
    }
}

impl InterruptsChip for GenericInterruptController {
    fn init_ap(&self, ctlr: u32, pmr: u32) -> (r: (RegWrite, RegWrite))
        ensures
            r.0 == (RegWrite { offset: GICC_CTLR, value: ctlr | 1 }),
            r.1 == (RegWrite { offset: GICC_PMR, value: (pmr & !0xFFu32) | 0xFF }),
    {
        self.cpu_interface.init(ctlr, pmr)
    }

    fn enable_interrupt(&self, interrupt: u32) -> (r: RegWrite)
        ensures
            r == (RegWrite {
                offset: (GICD_ISENABLER + 4 * (interrupt / 32)) as usize,
                value: 1u32 << (interrupt % 32),
            }),
    {
        self.distributor.enable_interrupt(interrupt)
    }

    fn disable_interrupt(&self, interrupt: u32) -> (r: RegWrite)
        ensures
            r == (RegWrite {
                offset: (GICD_ICENABLER + 4 * (interrupt / 32)) as usize,
                value: 1u32 << (interrupt % 32),
            }),
    {
        self.distributor.disable_interrupt(interrupt)
    }

    fn get_current_intid(&self, iar: u32) -> (r: u32)
        ensures
            r == iar & 0x3FF,
    {
        self.cpu_interface.get_current_intid(iar)
    }

    fn end_of_interrupt(&self, interrupt: u32) -> (r: RegWrite)
        ensures
            r == (RegWrite { offset: GICC_EOIR, value: interrupt }),
    {
        self.cpu_interface.eoi(interrupt)
    }

    open spec fn sgi_write(&self, destination: CoreSelection, interrupt_id: u8) -> RegWrite {
        RegWrite {
            offset: GICD_SGIR,
            value: match destination {
                CoreSelection::Mask(mask) => ((mask as u32) << 16u32) | (interrupt_id as u32),
                CoreSelection::Others => (1u32 << 24u32) | (interrupt_id as u32),
                CoreSelection::Me => (2u32 << 24u32) | (interrupt_id as u32),
            },
        }
    }

    fn send_sgi(&self, destination: CoreSelection, interrupt_id: u8) -> (r: RegWrite)
        ensures
            r.offset == GICD_SGIR,
            r.value == match destination {
                CoreSelection::Mask(mask) => ((mask as u32) << 16u32) | (interrupt_id as u32),
                CoreSelection::Others => (1u32 << 24u32) | (interrupt_id as u32),
                CoreSelection::Me => (2u32 << 24u32) | (interrupt_id as u32),
            },
    {
        self.distributor.send_sgi(destination, interrupt_id)
    }

    fn set_mode(&self, interrupt: u32, mode: InterruptMode, current: u32) -> (r: RegWrite)
        ensures
            ({
                let off = (interrupt % 16) * 2 + 1;
                &&& r.offset == GICD_ICFGR + 4 * (interrupt / 16)
                &&& r.value == match mode {
                    InterruptMode::EdgeTriggered => current | (1u32 << off),
                    InterruptMode::LevelSensitive => current & !(1u32 << off),
                }
            }),
    {
        self.distributor.set_mode(interrupt, mode, current)
    }
}

} // verus!
