use vstd::prelude::*;

pub mod capabilities;

pub use self::capabilities::{
    CapabilitiesIter, Capability, CapabilityHeader, MsiCapability, MsixCapability, MsixTableEntry,
    PcieCapability, PowerManagementCapability,
};



use crate::memory::{PhysicalAddress, VirtualAddress};

verus! {

// The configuration space header, by byte offset.
pub const PCI_VENDOR_ID: usize = 0x0;
pub const PCI_DEVICE_ID: usize = 0x2;
pub const PCI_COMMAND: usize = 0x4;
pub const PCI_STATUS: usize = 0x6;
pub const PCI_REVISION_ID: usize = 0x8;
pub const PCI_PROG_IF: usize = 0x9;
pub const PCI_SUBCLASS: usize = 0xA;
pub const PCI_CLASS: usize = 0xB;
pub const PCI_HEADER_TYPE: usize = 0xE;
pub const PCI_BARS: [usize; 6] = [0x10, 0x14, 0x18, 0x1C, 0x20, 0x24];
pub const PCI_CARDBUS_CIS: usize = 0x28;
pub const PCI_SUBSYSTEM_VENDOR_ID: usize = 0x2C;
pub const PCI_SUBSYSTEM_ID: usize = 0x2E;
pub const PCI_EXPANSION_ROM_BASE: usize = 0x30;
pub const PCI_CAPABILITIES: usize = 0x34;
pub const PCI_INTERRUPT_LINE: usize = 0x3C;
pub const PCI_INTERRUPT_PIN: usize = 0x3D;

/// The number of 32 bits words of the configuration space header read for a function.
pub const HEADER_WORDS: usize = 16;

/// The vendor id read where no function is.
pub const NO_VENDOR: u16 = 0xFFFF;

/// A function of a device on a bus.
#[derive(Clone, Copy, Debug, PartialEq, Eq, Structural)]
pub struct Location {
    pub bus: u8,
    pub dev: u8,
    pub func: u8,
}

impl Location {
    pub open spec fn valid(self) -> bool {
        self.dev < 32 && self.func < 8
    }

    /// The offset of the configuration space of the function in the ECAM area.
    pub open spec fn ecam_offset(self) -> int {
        self.bus * 0x100000 + self.dev * 0x8000 + self.func * 0x1000
    }

    pub fn new(bus: u8, dev: u8, func: u8) -> (r: Self)
        requires
            dev < 32,
            func < 8,
        ensures
            r == (Location { bus, dev, func }),
    {
        Self { bus, dev, func }
    }

    /// The address of the register at `off` in the configuration space of the function, in the
    /// ECAM area at `ecam`.
    pub fn addr(&self, ecam: VirtualAddress, off: usize) -> (r: VirtualAddress)
        requires
            self.valid(),
            off < 0x1000,
            ecam@ + 0x1000_0000 <= u64::MAX,
            VirtualAddress::valid((ecam@ + self.ecam_offset() + off) as u64),
        ensures
            r@ == ecam@ + self.ecam_offset() + off,
    {
        let bus = self.bus as u64;
        let dev = self.dev as u64;
        let func = self.func as u64;
        let o = off as u64;
        let offset = bus << 20u64 | dev << 15u64 | func << 12u64 | o;
        proof {
            assert(bus << 20u64 | dev << 15u64 | func << 12u64 | o == bus * 0x100000 + dev * 0x8000 + func * 0x1000
                + o) by (bit_vector)
                requires
                    bus < 256,
                    dev < 32,
                    func < 8,
                    o < 0x1000,
            ;
        }
        ecam.plus(offset)
    }
}

/// The command register.
#[derive(Clone, Copy, Debug, PartialEq, Eq, Structural)]
pub struct Command(pub u16);

/// The status register.
#[derive(Clone, Copy, Debug, PartialEq, Eq, Structural)]
pub struct Status(pub u16);

impl Status {
    pub const CAPABILITIES_LIST: u16 = 0x0010;

    pub fn has_capabilities_list(self) -> (r: bool)
        ensures
            r == (self.0 & Self::CAPABILITIES_LIST == Self::CAPABILITIES_LIST),
    {
        self.0 & Self::CAPABILITIES_LIST == Self::CAPABILITIES_LIST
    }
}

/// (locatable, prefetchable)
#[derive(Clone, Copy, Debug, PartialEq, Eq, Structural)]
pub enum PciBarMemoryLocatable {
    Any32,
    Below1MB,
    Any64,
}

#[derive(Clone, Copy, Debug, PartialEq, Eq, Structural)]
pub enum PciBarType {
    /// (locatable, prefetchable)
    Memory(PciBarMemoryLocatable, bool),
    IO,
}

/// A base address register: what it maps, where, and how many bytes.
#[derive(Clone, Copy, Debug, PartialEq, Eq, Structural)]
pub struct PciBar {
    pub bar_type: PciBarType,
    pub addr: u64,
    pub size: u64,
}

/// What a base address register holds once probed: its value `val`, and the value `size` read
/// back after all ones were written to it.
pub open spec fn bar_size_spec(size: u32) -> u64 {
    let masked = if size & 1 == 1 {
        size & 0xFFFF_FFFC
    } else {
        size & 0xFFFF_FFF0
    };
    (!masked).wrapping_add(1) as u64
}

/// The memory placement encoded in bits 1-2 of a memory BAR value, if it is a known one.
pub open spec fn locatable_spec(val: u32) -> Option<PciBarMemoryLocatable> {
    let l = (val >> 1u32) & 3;
    if l == 0 {
        Some(PciBarMemoryLocatable::Any32)
    } else if l == 1 {
        Some(PciBarMemoryLocatable::Below1MB)
    } else if l == 2 {
        Some(PciBarMemoryLocatable::Any64)
    } else {
        None
    }
}

/// Whether the BAR value `val` is a 64 bits memory BAR, whose upper half is the next BAR.
pub open spec fn is_bar64(val: u32) -> bool {
    val & 1 == 0 && locatable_spec(val) == Some(PciBarMemoryLocatable::Any64)
}

/// The BAR decoded from its probed value `val` and size `size`, `up` being the value of the
/// next BAR (the upper half of a 64 bits BAR). `None` for an unused BAR (both zero) or a
/// memory BAR with an unknown placement.
pub open spec fn decode_bar_spec(val: u32, size: u32, up: u32) -> Option<PciBar> {
    if val == 0 && size == 0 {
        None
    } else if val & 1 == 0 {
        match locatable_spec(val) {
            None => None,
            Some(l) => Some(PciBar {
                bar_type: PciBarType::Memory(l, val & 0b1000 != 0),
                addr: if l == PciBarMemoryLocatable::Any64 {
                    ((val & !0b1111u32) as u64) | ((up as u64) << 32u64)
                } else {
                    (val & !0b1111u32) as u64
                },
                size: if l == PciBarMemoryLocatable::Below1MB {
                    bar_size_spec(size) & 0xFFF0
                } else {
                    bar_size_spec(size)
                },
            }),
        }
    } else {
        Some(PciBar { bar_type: PciBarType::IO, addr: (val & !0b11u32) as u64, size: bar_size_spec(size) & 0xFFFF_FFFC })
    }
}

/// `s` is the size of a window whose address bits are those set in `m`: added to `m` it wraps
/// around the 32 bits space (0 when `m` is 0).
pub open spec fn window_size(s: u64, m: u32) -> bool {
    if m == 0 {
        s == 0
    } else {
        m + s == 0x1_0000_0000
    }
}

/// The two's complement of a value is what it takes to wrap it around to 0; for a value whose
/// two low bits are clear, its two low bits are clear too.
proof fn lemma_twos(m: u32, s: u32, size: u32)
    by (bit_vector)
    requires
        (!m == 0xFFFF_FFFFu32 && s == 0) || (!m != 0xFFFF_FFFFu32 && s == !m + 1),
        m == size & 0xFFFF_FFFC || m == size & 0xFFFF_FFF0,
    ensures
        m == 0 ==> s == 0,
        m != 0 ==> m + s == 0x1_0000_0000,
        m == size & 0xFFFF_FFFC ==> s & 0xFFFF_FFFC == s,
        size & 1 == 1 ==> size != 0,
{
}

/// The size decoded from the value `size` read back from a probed BAR, added to that value
/// without its flag bits (bits 0-1 of an I/O BAR, whose bit 0 is set; bits 0-3 of a memory
/// BAR), wraps around the 32 bits space: the window spans the address bits the device leaves
/// settable.
pub proof fn lemma_bar_size(size: u32)
    ensures
        size & 1 == 1 ==> size != 0,
        size & 1 == 1 ==> window_size(bar_size_spec(size), size & 0xFFFF_FFFC),
        size & 1 == 1 ==> bar_size_spec(size) & 0xFFFF_FFFC == bar_size_spec(size),
        size & 1 == 0 ==> window_size(bar_size_spec(size), size & 0xFFFF_FFF0),
{
    let m = if size & 1 == 1 {
        size & 0xFFFF_FFFC
    } else {
        size & 0xFFFF_FFF0
    };
    let s = (!m).wrapping_add(1);
    lemma_twos(m, s, size);
    assert((s as u64) & 0xFFFF_FFFC == (s & 0xFFFF_FFFC) as u64);
}

/// The address decoded from a BAR value `val` (and the next value `up`, the upper half of a
/// 64 bits one) is the value without its flag bits: bits 0-1 of an I/O BAR, bits 0-3 of a
/// memory BAR, whose upper half a 64 bits BAR takes from `up`.
pub proof fn lemma_bar_address(val: u32, up: u32)
    ensures
        (val & !0b11u32) & 3 == 0 && (val & !0b11u32) | (val & 3) == val,
        (val & !0b1111u32) & 0xF == 0 && (val & !0b1111u32) | (val & 0xF) == val,
        (((val & !0b1111u32) as u64) | ((up as u64) << 32u64)) >> 32u64 == up as u64,
        (((val & !0b1111u32) as u64) | ((up as u64) << 32u64)) as u32 == val & !0b1111u32,
        ((val & !0b1111u32) as u64) >> 32u64 == 0,
{
    assert((val & !0b11u32) & 3 == 0 && (val & !0b11u32) | (val & 3) == val && (val & !0b1111u32) & 0xF == 0 && (val
        & !0b1111u32) | (val & 0xF) == val && (((val & !0b1111u32) as u64) | ((up as u64) << 32u64)) >> 32u64
        == up as u64 && (((val & !0b1111u32) as u64) | ((up as u64) << 32u64)) as u32 == val & !0b1111u32 && ((val
        & !0b1111u32) as u64) >> 32u64 == 0) by (bit_vector);
}

/// See `decode_bar_spec`.
pub fn decode_bar(val: u32, size: u32, up: u32) -> (r: Option<PciBar>)
    ensures
        r == decode_bar_spec(val, size, up),
        val & 1 == 1 && size & 1 == 1 ==> (r matches Some(b) && b.bar_type == PciBarType::IO && window_size(
            b.size,
            size & 0xFFFF_FFFC,
        )),
        val & 1 == 0 && size & 1 == 0 && (val >> 1u32) & 3 != 1 ==> (r matches Some(b) ==> window_size(
            b.size,
            size & 0xFFFF_FFF0,
        )),
        r matches Some(b) ==> (b.bar_type == PciBarType::IO ==> b.addr < 0x1_0000_0000 && (b.addr as u32) & 3 == 0
            && (b.addr as u32) | (val & 3) == val),
        r matches Some(b) ==> (b.bar_type != PciBarType::IO ==> (b.addr as u32) & 0xF == 0 && (b.addr as u32) | (val
            & 0xF) == val),
        r matches Some(b) ==> (b.bar_type matches PciBarType::Memory(l, _) ==> b.addr >> 32u64 == if l
            == PciBarMemoryLocatable::Any64 {
            up as u64
        } else {
            0
        }),
{
    proof {
        lemma_bar_size(size);
        lemma_bar_address(val, up);
    }
    if val == 0 && size == 0 {
        return None;
    }
    let masked = if size & 1 == 1 {
        size & 0xFFFF_FFFC
    } else {
        size & 0xFFFF_FFF0
    };
    let bar_size = (!masked).wrapping_add(1) as u64;
    if val & 1 == 0 {
        let l = (val >> 1u32) & 3;
        let locatable = if l == 0 {
            PciBarMemoryLocatable::Any32
        } else if l == 1 {
            PciBarMemoryLocatable::Below1MB
        } else if l == 2 {
            PciBarMemoryLocatable::Any64
        } else {
            return None;
        };
        let prefetchable = val & 0b1000 != 0;
        let mut addr = (val & !0b1111u32) as u64;
        let mut s = bar_size;
        if l == 2 {
            addr = addr | ((up as u64) << 32u64);
        } else if l == 1 {
            s = s & 0xFFF0;
        }
        Some(PciBar { bar_type: PciBarType::Memory(locatable, prefetchable), addr, size: s })
    } else {
        Some(PciBar { bar_type: PciBarType::IO, addr: (val & !0b11u32) as u64, size: bar_size & 0xFFFF_FFFC })
    }
}

/// The BARs decoded from the probed values `vals` and sizes `sizes` of the six registers,
/// in order; the register after a 64 bits memory BAR is its upper half and is no BAR.
pub open spec fn bars_spec(vals: Seq<u32>, sizes: Seq<u32>, i: int) -> Seq<Option<PciBar>>
    decreases 6 - i,
{
    if i >= 6 {
        Seq::empty()
    } else if is_bar64(vals[i]) && !(vals[i] == 0 && sizes[i] == 0) && i + 1 < 6 {
        seq![decode_bar_spec(vals[i], sizes[i], vals[i + 1]), None] + bars_spec(vals, sizes, i + 2)
    } else {
        seq![decode_bar_spec(vals[i], sizes[i], 0)] + bars_spec(vals, sizes, i + 1)
    }
}

/// Decode the six BARs of a function from their probed values and sizes (see `bars_spec`).
/// A 64 bits memory BAR cannot be the last one.
pub fn get_bars(vals: [u32; 6], sizes: [u32; 6]) -> (r: [Option<PciBar>; 6])
    requires
        !(is_bar64(vals[5]) && !(vals[5] == 0 && sizes[5] == 0)),
    ensures
        r@ == bars_spec(vals@, sizes@, 0),
{
    let mut bars: [Option<PciBar>; 6] = [None, None, None, None, None, None];
    let mut i: usize = 0;
    while i < 6
        invariant
            i <= 6,
            !(is_bar64(vals[5]) && !(vals[5] == 0 && sizes[5] == 0)),
            bars@.len() == 6,
            bars@.subrange(0, i as int) + bars_spec(vals@, sizes@, i as int) == bars_spec(vals@, sizes@, 0),
            forall|j: int| i <= j < 6 ==> bars@[j] is None,
        decreases 6 - i,
    {
        let val = vals[i];
        let size = sizes[i];
        let wide = val & 1 == 0 && (val >> 1u32) & 3 == 2 && !(val == 0 && size == 0);
        if wide {
            proof {
                assert(i + 1 < 6);
            }
            let b = decode_bar(val, size, vals[i + 1]);
            bars.set(i, b);
            proof {
                let s = bars_spec(vals@, sizes@, i as int);
                assert(s == seq![decode_bar_spec(vals[i as int], sizes[i as int], vals[i + 1]), None] + bars_spec(vals@, sizes@, i + 2));
                assert(bars@.subrange(0, i + 2) + bars_spec(vals@, sizes@, i + 2) =~= bars_spec(vals@, sizes@, 0));
            }
            i += 2;
        } else {
            let b = decode_bar(val, size, 0);
            bars.set(i, b);
            proof {
                assert(bars@.subrange(0, i + 1) + bars_spec(vals@, sizes@, i + 1) =~= bars_spec(vals@, sizes@, 0));
            }
            i += 1;
        }
    }
    proof {
        assert(bars@.subrange(0, i as int) =~= bars@);
    }
    bars
}

/// The configuration header of a function with header type 0.
#[derive(Clone, Copy, Debug)]
pub struct CommonHeader {
    pub bars: [Option<PciBar>; 6],
    pub cardbus_cis_ptr: u32,
    pub subsystem_id: u16,
    pub subsystem_vendor_id: u16,
    pub expansion_rom_addr: u32,
    pub capabilities_ptr: u8,
    pub interrupt_line: u8,
    pub interrupt_pin: u8,
}

#[derive(Clone, Copy, Debug)]
pub enum HeaderType {
    Common(CommonHeader),
    PciToPci,
    PciToCardBus,
    Unknown,
}

/// A function found on a bus, with its configuration header.
#[derive(Clone, Copy, Debug)]
pub struct PciDevice {
    pub location: Location,
    pub vendor_id: u16,
    pub device_id: u16,
    pub class: u8,
    pub subclass: u8,
    pub prog_if: u8,
    pub revision: u8,
    pub command: Command,
    pub status: Status,
    pub header_full: HeaderType,
}

/// The byte at `off` (little endian) in the header words `w`.
pub open spec fn cfg_u8(w: Seq<u32>, off: int) -> u8 {
    ((w[off / 4] >> (((off % 4) * 8) as u32)) & 0xFF) as u8
}

/// The 16 bits value at `off` (even, little endian) in the header words `w`.
pub open spec fn cfg_u16(w: Seq<u32>, off: int) -> u16 {
    ((w[off / 4] >> (((off % 4) * 8) as u32)) & 0xFFFF) as u16
}

/// The 32 bits value at `off` (a multiple of 4) in the header words `w`.
pub open spec fn cfg_u32(w: Seq<u32>, off: int) -> u32 {
    w[off / 4]
}

fn read_u8(w: &[u32; 16], off: usize) -> (r: u8)
    requires
        off < 64,
    ensures
        r == cfg_u8(w@, off as int),
{
    ((w[off / 4] >> (((off % 4) * 8) as u32)) & 0xFF) as u8
}

fn read_u16(w: &[u32; 16], off: usize) -> (r: u16)
    requires
        off < 64,
        off % 2 == 0,
    ensures
        r == cfg_u16(w@, off as int),
{
    ((w[off / 4] >> (((off % 4) * 8) as u32)) & 0xFFFF) as u16
}


/// `d` is the function at `loc` as read from the header words `w` and the probed sizes
/// `bar_sizes` of its BARs.
pub open spec fn read_from_config(d: PciDevice, loc: Location, w: Seq<u32>, bar_sizes: Seq<u32>) -> bool {
    &&& d.location == loc
    &&& d.vendor_id == cfg_u16(w, PCI_VENDOR_ID as int)
    &&& d.device_id == cfg_u16(w, PCI_DEVICE_ID as int)
    &&& d.class == cfg_u8(w, PCI_CLASS as int)
    &&& d.subclass == cfg_u8(w, PCI_SUBCLASS as int)
    &&& d.prog_if == cfg_u8(w, PCI_PROG_IF as int)
    &&& d.revision == cfg_u8(w, PCI_REVISION_ID as int)
    &&& d.command == Command(cfg_u16(w, PCI_COMMAND as int))
    &&& d.status == Status(cfg_u16(w, PCI_STATUS as int))
    &&& match d.header_full {
        HeaderType::Common(h) => cfg_u8(w, PCI_HEADER_TYPE as int) == 0
            && h.bars@ == bars_spec(w.subrange(4, 10), bar_sizes, 0)
            && h.cardbus_cis_ptr == cfg_u32(w, PCI_CARDBUS_CIS as int)
            && h.subsystem_id == cfg_u16(w, PCI_SUBSYSTEM_ID as int)
            && h.subsystem_vendor_id == cfg_u16(w, PCI_SUBSYSTEM_VENDOR_ID as int)
            && h.expansion_rom_addr == cfg_u32(w, PCI_EXPANSION_ROM_BASE as int)
            && h.capabilities_ptr == cfg_u8(w, PCI_CAPABILITIES as int)
            && h.interrupt_line == cfg_u8(w, PCI_INTERRUPT_LINE as int)
            && h.interrupt_pin == cfg_u8(w, PCI_INTERRUPT_PIN as int),
        HeaderType::PciToPci => cfg_u8(w, PCI_HEADER_TYPE as int) == 1,
        HeaderType::PciToCardBus => cfg_u8(w, PCI_HEADER_TYPE as int) == 2,
        HeaderType::Unknown => cfg_u8(w, PCI_HEADER_TYPE as int) > 2,
    }
}

impl PciDevice {
    /// Whether the BARs of the function whose header words are `w` are to be probed: only a
    /// common header (type 0) has them.
    pub fn probes_bars(w: &[u32; 16]) -> (r: bool)
        ensures
            r == (cfg_u8(w@, PCI_HEADER_TYPE as int) == 0),
    {
        read_u8(w, PCI_HEADER_TYPE) == 0
    }

    /// The function as `from_config` reads it, or `None` when its header is a common one whose
    /// last BAR slot holds the lower half of a 64 bits BAR, which has no slot for its upper half.
    pub fn checked_from_config(loc: Location, w: &[u32; 16], bar_sizes: [u32; 6]) -> (r: Option<Self>)
        ensures
            r is None <==> cfg_u8(w@, PCI_HEADER_TYPE as int) == 0 && is_bar64(w@[9]) && !(w@[9] == 0
                && bar_sizes[5] == 0),
            r matches Some(d) ==> read_from_config(d, loc, w@, bar_sizes@),
    {
        let last = w[9];
        let wide = last & 1 == 0 && (last >> 1u32) & 3 == 2;
        if read_u8(w, PCI_HEADER_TYPE) == 0 && wide && !(last == 0 && bar_sizes[5] == 0) {
            None
        } else {
            Some(Self::from_config(loc, w, bar_sizes))
        }
    }

    /// The function at `loc`, from the first 16 words of its configuration space, `w`, and,
    /// for a header of type 0, the probed values and sizes of its six BARs.
    pub fn from_config(loc: Location, w: &[u32; 16], bar_sizes: [u32; 6]) -> (r: Self)
        requires
            cfg_u8(w@, PCI_HEADER_TYPE as int) == 0 ==> !(is_bar64(w@[9]) && !(w@[9] == 0 && bar_sizes[5] == 0)),
        ensures
            read_from_config(r, loc, w@, bar_sizes@),
    {
        let header_type = read_u8(w, PCI_HEADER_TYPE);
        let header = if header_type == 0 {
            let vals: [u32; 6] = [w[4], w[5], w[6], w[7], w[8], w[9]];
            proof {
                assert(vals@ =~= w@.subrange(4, 10));
            }
            HeaderType::Common(CommonHeader {
                bars: get_bars(vals, bar_sizes),
                cardbus_cis_ptr: w[PCI_CARDBUS_CIS / 4],
                subsystem_id: read_u16(w, PCI_SUBSYSTEM_ID),
                subsystem_vendor_id: read_u16(w, PCI_SUBSYSTEM_VENDOR_ID),
                expansion_rom_addr: w[PCI_EXPANSION_ROM_BASE / 4],
                capabilities_ptr: read_u8(w, PCI_CAPABILITIES),
                interrupt_line: read_u8(w, PCI_INTERRUPT_LINE),
                interrupt_pin: read_u8(w, PCI_INTERRUPT_PIN),
            })
        } else if header_type == 1 {
            HeaderType::PciToPci
        } else if header_type == 2 {
            HeaderType::PciToCardBus
        } else {
            HeaderType::Unknown
        };
        PciDevice {
            location: loc,
            vendor_id: read_u16(w, PCI_VENDOR_ID),
            device_id: read_u16(w, PCI_DEVICE_ID),
            class: read_u8(w, PCI_CLASS),
            subclass: read_u8(w, PCI_SUBCLASS),
            prog_if: read_u8(w, PCI_PROG_IF),
            revision: read_u8(w, PCI_REVISION_ID),
            command: Command(read_u16(w, PCI_COMMAND)),
            status: Status(read_u16(w, PCI_STATUS)),
            header_full: header,
        }
    }

    /// The BARs in use, in order. Only a header of type 0 has BARs.
    pub fn bars(&self) -> (r: Vec<PciBar>)
        requires
            self.header_full is Common,
        ensures
            ({
                let bars = self.header_full->Common_0.bars@;
                r@ == bars.filter(|b: Option<PciBar>| b is Some).map_values(|b: Option<PciBar>| b.unwrap())
            }),
    {
        let bars = match &self.header_full {
            HeaderType::Common(h) => h.bars,
            _ => [None, None, None, None, None, None],
        };
        let ghost all = bars@;
        let mut r: Vec<PciBar> = Vec::new();
        let mut i: usize = 0;
        while i < 6
            invariant
                i <= 6,
                all == bars@,
                all.len() == 6,
                r@ == all.take(i as int).filter(|b: Option<PciBar>| b is Some).map_values(|b: Option<PciBar>| b.unwrap()),
            decreases 6 - i,
        {
            proof {
                assert(all.take(i + 1).drop_last() =~= all.take(i as int));
                assert(all.take(i + 1).last() == all[i as int]);
                reveal(Seq::filter);
            }
            if let Some(b) = bars[i] {
                r.push(b);
                proof {
                    assert(r@ =~= all.take(i + 1).filter(|b: Option<PciBar>| b is Some).map_values(|b: Option<PciBar>| b.unwrap()));
                }
            } else {
                proof {
                    assert(r@ =~= all.take(i + 1).filter(|b: Option<PciBar>| b is Some).map_values(|b: Option<PciBar>| b.unwrap()));
                }
            }
            i += 1;
        }
        proof {
            assert(all.take(6) =~= all);
        }
        r
    }

    /// The capabilities of the function, if its status announces a list of them.
    pub fn capabilities(&self) -> (r: Option<CapabilitiesIter>)
        requires
            self.header_full is Common,
        ensures
            r is Some <==> self.status.0 & Status::CAPABILITIES_LIST == Status::CAPABILITIES_LIST,
            r matches Some(it) ==> it.offset == self.header_full->Common_0.capabilities_ptr,
    {
        if self.status.has_capabilities_list() {
            let ptr = match &self.header_full {
                HeaderType::Common(h) => h.capabilities_ptr,
                _ => 0,
            };
            Some(CapabilitiesIter::new(ptr))
        } else {
            None
        }
    }
}

/// The devices found on a bus.
pub struct PciBus {
    pub bus_number: u8,
    pub devices: Vec<PciDevice>,
}

impl PciBus {
    /// The bus `bus_number` with the functions `devices` found on it; a bus without function is
    /// left out.
    pub fn new(bus_number: u8, devices: Vec<PciDevice>) -> (r: Option<PciBus>)
        ensures
            r is Some <==> devices@.len() > 0,
            r matches Some(b) ==> b.bus_number == bus_number && b.devices@ == devices@,
    {
        if devices.len() == 0 {
            None
        } else {
            Some(PciBus { bus_number, devices })
        }
    }
}

/// Whether a function answers: its vendor id is not `NO_VENDOR`.
pub fn is_present(vendor: u16) -> (r: bool)
    ensures
        r == (vendor != NO_VENDOR),
{
    vendor != NO_VENDOR
}

/// How many functions of a device to look for, from the vendor id and header type of its
/// function 0: none if it does not answer, eight for a multi-function device, else one.
pub fn functions_to_scan(vendor: u16, header_type: u8) -> (r: u8)
    ensures
        r == if vendor == NO_VENDOR {
            0u8
        } else if header_type & 0x80 == 0 {
            1u8
        } else {
            8u8
        },
{
    if vendor == NO_VENDOR {
        0
    } else if header_type & 0x80 == 0 {
        1
    } else {
        8
    }
}

/// The kind of device and the module that drives a function of class `class`, subclass
/// `subclass` and programming interface `prog_if`, if a driver is known: NVMe controllers.
pub fn driver_for(class: u8, subclass: u8, prog_if: u8) -> (r: Option<(&'static str, &'static str)>)
    ensures
        r is Some <==> class == 1 && subclass == 8,
        r matches Some(d) ==> d == ("nvme", "/initrd/nvme.kmod"),
{
    if class == 1 && subclass == 8 {
        Some(("nvme", "/initrd/nvme.kmod"))
    } else {
        None
    }
}

} // verus!
