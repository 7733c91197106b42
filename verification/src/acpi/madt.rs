use vstd::prelude::*;

use super::sdt::SdtHeader;
use crate::utils::{le_u16, le_u32, le_u64, read_le_u16, read_le_u32, read_le_u64};

verus! {

/// The size of the fixed part of the MADT: the header, the local interrupt controller address
/// and the flags. The entries follow it.
pub const MADT_SIZE: usize = 44;

/// The Multiple APIC Description Table.
#[derive(Clone, Copy, Debug)]
pub struct Madt {
    pub header: SdtHeader,
    pub local_interrupt_controller_address: u32,
    pub flags: u32,
}

#[derive(Clone, Copy, Debug, PartialEq, Eq, Structural)]
pub enum MadtEntryType {
    LApic,
    IOApic,
    InterruptSourceOverride,
    NMISource,
    LApicNMI,
    LAPICAddressOverride,
    IOSApic,
    LSApic,
    PlatformInterruptSources,
    X2Apic,
    X2ApicNMI,
    GICC,
    GICD,
    GicMsiFrame,
    GIRC,
    GicITS,
    MultiprocessorWakeup,
}

/// The entry type with the number `v`, if there is one.
pub open spec fn entry_type_spec(v: u8) -> Option<MadtEntryType> {
    if v == 0 {
        Some(MadtEntryType::LApic)
    } else if v == 1 {
        Some(MadtEntryType::IOApic)
    } else if v == 2 {
        Some(MadtEntryType::InterruptSourceOverride)
    } else if v == 3 {
        Some(MadtEntryType::NMISource)
    } else if v == 4 {
        Some(MadtEntryType::LApicNMI)
    } else if v == 5 {
        Some(MadtEntryType::LAPICAddressOverride)
    } else if v == 6 {
        Some(MadtEntryType::IOSApic)
    } else if v == 7 {
        Some(MadtEntryType::LSApic)
    } else if v == 8 {
        Some(MadtEntryType::PlatformInterruptSources)
    } else if v == 9 {
        Some(MadtEntryType::X2Apic)
    } else if v == 0xA {
        Some(MadtEntryType::X2ApicNMI)
    } else if v == 0xB {
        Some(MadtEntryType::GICC)
    } else if v == 0xC {
        Some(MadtEntryType::GICD)
    } else if v == 0xD {
        Some(MadtEntryType::GicMsiFrame)
    } else if v == 0xE {
        Some(MadtEntryType::GIRC)
    } else if v == 0xF {
        Some(MadtEntryType::GicITS)
    } else if v == 0x10 {
        Some(MadtEntryType::MultiprocessorWakeup)
    } else {
        None
    }
}

/// The type code of the MADT entries of type `t`, as the ACPI specification numbers them.
pub open spec fn madt_type_code(t: MadtEntryType) -> u8 {
    match t {
        MadtEntryType::LApic => 0,
        MadtEntryType::IOApic => 1,
        MadtEntryType::InterruptSourceOverride => 2,
        MadtEntryType::NMISource => 3,
        MadtEntryType::LApicNMI => 4,
        MadtEntryType::LAPICAddressOverride => 5,
        MadtEntryType::IOSApic => 6,
        MadtEntryType::LSApic => 7,
        MadtEntryType::PlatformInterruptSources => 8,
        MadtEntryType::X2Apic => 9,
        MadtEntryType::X2ApicNMI => 0xA,
        MadtEntryType::GICC => 0xB,
        MadtEntryType::GICD => 0xC,
        MadtEntryType::GicMsiFrame => 0xD,
        MadtEntryType::GIRC => 0xE,
        MadtEntryType::GicITS => 0xF,
        MadtEntryType::MultiprocessorWakeup => 0x10,
    }
}

/// Decoding an entry type is the inverse of the ACPI numbering: the code of every type decodes
/// to that type, and a code decodes to a type only when it is that type's code.
pub proof fn lemma_entry_type_codes(v: u8, t: MadtEntryType)
    ensures
        entry_type_spec(madt_type_code(t)) == Some(t),
        entry_type_spec(v) == Some(t) ==> madt_type_code(t) == v,
        entry_type_spec(v) is None <==> v > 0x10,
{
}

impl MadtEntryType {
    /// See `entry_type_spec`.
    pub fn from_u8(v: u8) -> (r: Option<Self>)
        ensures
            r == entry_type_spec(v),
            r matches Some(t) ==> madt_type_code(t) == v,
            forall|t: MadtEntryType| madt_type_code(t) == v ==> r == Some(t),
    {
        proof {
            assert forall|t: MadtEntryType| madt_type_code(t) == v implies entry_type_spec(v) == Some(t) by {
                lemma_entry_type_codes(v, t);
            }
            if let Some(t) = entry_type_spec(v) {
                lemma_entry_type_codes(v, t);
            }
        }
        match v {
            0 => Some(MadtEntryType::LApic),
            1 => Some(MadtEntryType::IOApic),
            2 => Some(MadtEntryType::InterruptSourceOverride),
            3 => Some(MadtEntryType::NMISource),
            4 => Some(MadtEntryType::LApicNMI),
            5 => Some(MadtEntryType::LAPICAddressOverride),
            6 => Some(MadtEntryType::IOSApic),
            7 => Some(MadtEntryType::LSApic),
            8 => Some(MadtEntryType::PlatformInterruptSources),
            9 => Some(MadtEntryType::X2Apic),
            0xA => Some(MadtEntryType::X2ApicNMI),
            0xB => Some(MadtEntryType::GICC),
            0xC => Some(MadtEntryType::GICD),
            0xD => Some(MadtEntryType::GicMsiFrame),
            0xE => Some(MadtEntryType::GIRC),
            0xF => Some(MadtEntryType::GicITS),
            0x10 => Some(MadtEntryType::MultiprocessorWakeup),
            _ => None,
        }
    }
}

/// The header of an entry of the MADT, and where the entry starts in the table.
#[derive(Clone, Copy, Debug, PartialEq, Eq, Structural)]
pub struct MadtEntryHeader {
    pub struct_type: MadtEntryType,
    pub length: u8,
    pub offset: usize,
}

/// The entries of the table `b` from `pos` (counted from the end of the fixed part) to `end`
/// are well formed: each has a known type and a nonzero length, and its header lies in `b`.
pub open spec fn entries_ok(b: Seq<u8>, pos: int, end: int) -> bool
    decreases end - pos,
{
    if pos >= end {
        true
    } else {
        let off = MADT_SIZE + pos;
        if off + 2 <= b.len() && entry_type_spec(b[off]) is Some && b[off + 1] >= 1 {
            pos + b[off + 1] >= end || entries_ok(b, pos + b[off + 1], end)
        } else {
            false
        }
    }
}

/// The headers of the entries of the table `b` from `pos` to `end`, in order.
pub open spec fn entries_from(b: Seq<u8>, pos: int, end: int) -> Seq<MadtEntryHeader>
    decreases end - pos,
{
    if pos >= end {
        Seq::empty()
    } else {
        let off = MADT_SIZE + pos;
        if off + 2 <= b.len() && entry_type_spec(b[off]) is Some && b[off + 1] >= 1 {
            let h = MadtEntryHeader {
                struct_type: entry_type_spec(b[off]).unwrap(),
                length: b[off + 1],
                offset: off as usize,
            };
            if pos + b[off + 1] >= end {
                seq![h]
            } else {
                seq![h] + entries_from(b, pos + b[off + 1], end)
            }
        } else {
            Seq::empty()
        }
    }
}

/// The table in `b` is a MADT whose entries are well formed.
pub open spec fn madt_ok(b: Seq<u8>) -> bool {
    &&& b.len() >= MADT_SIZE
    &&& le_u32(b, 4) >= MADT_SIZE
    &&& le_u32(b, 4) <= b.len()
    &&& entries_ok(b, 0, le_u32(b, 4) - MADT_SIZE)
}

impl Madt {
    /// The fixed part of the MADT in `b`.
    pub fn read(b: &[u8]) -> (r: Self)
        requires
            b@.len() >= MADT_SIZE,
        ensures
            r.header.length == le_u32(b@, 4),
            r.local_interrupt_controller_address == le_u32(b@, 36),
            r.flags == le_u32(b@, 40),
    {
        Madt {
            header: SdtHeader::read(b),
            local_interrupt_controller_address: read_le_u32(b, 36),
            flags: read_le_u32(b, 40),
        }
    }

    /// An iterator over the entries of this table, whose bytes are `b`.
    pub fn iter<'a>(&self, b: &'a [u8]) -> (r: MadtIterator<'a>)
        requires
            madt_ok(b@),
            self.header.length == le_u32(b@, 4),
        ensures
            r.wf(),
            r.remaining() == entries_from(b@, 0, le_u32(b@, 4) - MADT_SIZE),
    {
        MadtIterator { table: b, length: (self.header.length as u64) - (MADT_SIZE as u64), pos: 0 }
    }
}

/// Iterator over the entries of a MADT.
pub struct MadtIterator<'a> {
    table: &'a [u8],
    length: u64,
    pos: u64,
}

impl<'a> MadtIterator<'a> {
    pub closed spec fn wf(&self) -> bool {
        &&& entries_ok(self.table@, self.pos as int, self.length as int)
        &&& MADT_SIZE + self.length <= self.table@.len()
        &&& self.length <= u32::MAX
    }

    /// The entries not yet returned.
    pub closed spec fn remaining(&self) -> Seq<MadtEntryHeader> {
        entries_from(self.table@, self.pos as int, self.length as int)
    }

    pub fn next(&mut self) -> (r: Option<MadtEntryHeader>)
        requires
            old(self).wf(),
        ensures
            final(self).wf(),
            old(self).remaining().len() == 0 ==> r is None && final(self).remaining().len() == 0,
            old(self).remaining().len() > 0 ==> r == Some(old(self).remaining()[0]) && final(self).remaining()
                == old(self).remaining().drop_first(),
    {
        if self.pos >= self.length {
            return None;
        }
        proof {
            assert(self.table@.len() == self.table.len());
        }
        let off = MADT_SIZE + self.pos as usize;
        let struct_type = MadtEntryType::from_u8(self.table[off]).unwrap();
        let length = self.table[off + 1];
        let ghost before = self.remaining();
        self.pos = self.pos + length as u64;
        proof {
            if self.pos >= self.length {
                assert(before =~= seq![MadtEntryHeader { struct_type, length, offset: off }]);
                assert(before.drop_first() =~= self.remaining());
            } else {
                assert(before =~= seq![MadtEntryHeader { struct_type, length, offset: off }] + self.remaining());
                assert(before.drop_first() =~= self.remaining());
            }
        }
        Some(MadtEntryHeader { struct_type, length, offset: off })
    }
}

/// An entry of a given type, read from the bytes of its table.
pub trait MadtTable: Sized {
    /// The entry `header` as this type, if it is of this type and fits in the table `b`.
    fn from_header(b: &[u8], header: &MadtEntryHeader) -> Option<Self>;
}

#[derive(Clone, Copy, Debug)]
pub struct GiccFlags {
    pub enabled: u8,
    pub performance_interrupt_mode: u8,
    pub vgic_maintenance_flags: u8,
}

/// A GIC CPU interface entry.
#[derive(Clone, Copy, Debug)]
pub struct GICC {
    pub interface_number: u32,
    pub processor_uid: u32,
    pub flags: GiccFlags,
    pub parking_protocol_version: u32,
    pub gsiv: u32,
    pub parked_addr: u64,
    pub base_addr: u64,
    pub gicv: u64,
    pub gich: u64,
    pub vgic_maintenance: u32,
    pub gicr_addr: u64,
    pub mpidr: u64,
}

pub const GICC_SIZE: usize = 76;

impl MadtTable for GICC {
    fn from_header(b: &[u8], header: &MadtEntryHeader) -> (r: Option<Self>)
        ensures
            r is Some <==> header.struct_type == MadtEntryType::GICC && header.offset + GICC_SIZE <= b@.len(),
            r matches Some(g) ==> ({
                let o = header.offset as int;
                &&& g.interface_number == le_u32(b@, o + 4)
                &&& g.processor_uid == le_u32(b@, o + 8)
                &&& g.flags.enabled == b@[o + 12]
                &&& g.flags.performance_interrupt_mode == b@[o + 13]
                &&& g.flags.vgic_maintenance_flags == b@[o + 14]
                &&& g.parking_protocol_version == le_u32(b@, o + 16)
                &&& g.gsiv == le_u32(b@, o + 20)
                &&& g.parked_addr == le_u64(b@, o + 24)
                &&& g.base_addr == le_u64(b@, o + 32)
                &&& g.gicv == le_u64(b@, o + 40)
                &&& g.gich == le_u64(b@, o + 48)
                &&& g.vgic_maintenance == le_u32(b@, o + 56)
                &&& g.gicr_addr == le_u64(b@, o + 60)
                &&& g.mpidr == le_u64(b@, o + 68)
            }),
    {
        if header.struct_type != MadtEntryType::GICC || header.offset > b.len() || GICC_SIZE > b.len()
            - header.offset {
            return None;
        }
        let o = header.offset;
        Some(GICC {
            interface_number: read_le_u32(b, o + 4),
            processor_uid: read_le_u32(b, o + 8),
            flags: GiccFlags {
                enabled: b[o + 12],
                performance_interrupt_mode: b[o + 13],
                vgic_maintenance_flags: b[o + 14],
            },
            parking_protocol_version: read_le_u32(b, o + 16),
            gsiv: read_le_u32(b, o + 20),
            parked_addr: read_le_u64(b, o + 24),
            base_addr: read_le_u64(b, o + 32),
            gicv: read_le_u64(b, o + 40),
            gich: read_le_u64(b, o + 48),
            vgic_maintenance: read_le_u32(b, o + 56),
            gicr_addr: read_le_u64(b, o + 60),
            mpidr: read_le_u64(b, o + 68),
        })
    }
}

/// A GIC distributor entry.
#[derive(Clone, Copy, Debug)]
pub struct GICD {
    pub gic_id: u32,
    pub base_address: u64,
    pub version: u8,
}

pub const GICD_SIZE: usize = 24;

impl MadtTable for GICD {
    fn from_header(b: &[u8], header: &MadtEntryHeader) -> (r: Option<Self>)
        ensures
            r is Some <==> header.struct_type == MadtEntryType::GICD && header.offset + GICD_SIZE <= b@.len(),
            r matches Some(g) ==> g.gic_id == le_u32(b@, header.offset + 4) && g.base_address == le_u64(
                b@,
                header.offset + 8,
            ) && g.version == b@[header.offset + 20],
    {
        if header.struct_type != MadtEntryType::GICD || header.offset > b.len() || GICD_SIZE > b.len()
            - header.offset {
            return None;
        }
        let o = header.offset;
        Some(GICD { gic_id: read_le_u32(b, o + 4), base_address: read_le_u64(b, o + 8), version: b[o + 20] })
    }
}

/// A GIC MSI frame entry.
#[derive(Clone, Copy, Debug)]
pub struct GicMsiFrame {
    pub frame_id: u32,
    pub base_address: u64,
    pub flags: u32,
    pub spi_count: u16,
    pub spi_base: u16,
}

pub const GIC_MSI_FRAME_SIZE: usize = 24;

impl MadtTable for GicMsiFrame {
    fn from_header(b: &[u8], header: &MadtEntryHeader) -> (r: Option<Self>)
        ensures
            r is Some <==> header.struct_type == MadtEntryType::GicMsiFrame && header.offset + GIC_MSI_FRAME_SIZE
                <= b@.len(),
            r matches Some(g) ==> ({
                let o = header.offset as int;
                &&& g.frame_id == le_u32(b@, o + 4)
                &&& g.base_address == le_u64(b@, o + 8)
                &&& g.flags == le_u32(b@, o + 16)
                &&& g.spi_count == le_u16(b@, o + 20)
                &&& g.spi_base == le_u16(b@, o + 22)
            }),
    {
        if header.struct_type != MadtEntryType::GicMsiFrame || header.offset > b.len() || GIC_MSI_FRAME_SIZE
            > b.len() - header.offset {
            return None;
        }
        let o = header.offset;
        Some(
            GicMsiFrame {
                frame_id: read_le_u32(b, o + 4),
                base_address: read_le_u64(b, o + 8),
                flags: read_le_u32(b, o + 16),
                spi_count: read_le_u16(b, o + 20),
                spi_base: read_le_u16(b, o + 22),
            },
        )
    }
}

} // verus!
