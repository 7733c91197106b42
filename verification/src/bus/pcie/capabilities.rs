use vstd::prelude::*;

verus! {

/// Walks the capabilities list of a function: the offset of the next capability header, 0 at
/// the end. The caller reads the 16 bits header at each offset it is given.
pub struct CapabilitiesIter {
    pub offset: u8,
}

impl CapabilitiesIter {
    /// A walk from the capabilities pointer `ptr` of the configuration header.
    pub fn new(ptr: u8) -> (r: Self)
        ensures
            r.offset == ptr,
    {
        Self { offset: ptr }
    }

    /// The offset of the current capability, if any is left; `reg` is the 16 bits header read
    /// at the current offset (id, then next pointer), whose next pointer becomes the offset,
    /// without its two low bits.
    pub fn next(&mut self, reg: u16) -> (r: Option<usize>)
        ensures
            old(self).offset == 0 ==> r is None && final(self).offset == 0,
            old(self).offset != 0 ==> r == Some(old(self).offset as usize)
                && final(self).offset == ((reg >> 8u16) as u8) & !0b11u8,
    {
        if self.offset == 0 {
            return None;
        }
        let new_off = (reg >> 8u16) as u8;
        let off = self.offset as usize;
        self.offset = new_off & !0b11u8;
        Some(off)
    }
}

/// A capability: its kind, with the offset of its structure in the configuration space.
#[derive(Clone, Copy, Debug, PartialEq, Eq, Structural)]
pub enum Capability {
    PowerManagement(usize),
    Msi(usize),
    Pcie(usize),
    Msix(usize),
    Other(u8),
}

impl Capability {
    /// The capability with id `id` whose structure is at `off`.
    pub fn from_id(id: u8, off: usize) -> (r: Self)
        ensures
            r == if id == 0x01 {
                Capability::PowerManagement(off)
            } else if id == 0x05 {
                Capability::Msi(off)
            } else if id == 0x10 {
                Capability::Pcie(off)
            } else if id == 0x11 {
                Capability::Msix(off)
            } else {
                Capability::Other(id)
            },
    {
        match id {
            0x01 => Capability::PowerManagement(off),
            0x05 => Capability::Msi(off),
            0x10 => Capability::Pcie(off),
            0x11 => Capability::Msix(off),
            _ => Capability::Other(id),
        }
    }
}

/// The header every capability structure starts with.
#[derive(Clone, Copy, Debug, PartialEq, Eq, Structural)]
pub struct CapabilityHeader {
    pub id: u8,
    pub next_ptr: u8,
}

/// The PCI Express capability structure.
#[derive(Clone, Copy, Debug, PartialEq, Eq, Structural)]
pub struct PcieCapability {
    pub header: CapabilityHeader,
    pub pcie_capabilities: u16,
    pub device_capabilities: u32,
    pub device_control: u16,
    pub device_status: u16,
    pub link_capabilities: u32,
    pub link_control: u16,
    pub link_status: u16,
    pub slot_capabilities: u32,
    pub slot_control: u16,
    pub slot_status: u16,
    pub root_control: u16,
    pub root_capabilities: u16,
    pub root_status: u32,
    pub device_capabilities_2: u32,
    pub device_control_2: u16,
    pub device_status_2: u16,
    pub link_capabilities_2: u32,
    pub link_control_2: u16,
    pub link_status_2: u16,
}

/// The power management capability structure.
#[derive(Clone, Copy, Debug, PartialEq, Eq, Structural)]
pub struct PowerManagementCapability {
    pub header: CapabilityHeader,
    pub capabilities: u16,
    pub status_and_control: u16,
    pub pm_control_status: u8,
    pub data: u8,
}

/// The MSI capability structure.
#[derive(Clone, Copy, Debug, PartialEq, Eq, Structural)]
pub struct MsiCapability {
    pub header: CapabilityHeader,
    pub message_control: u16,
    pub message_addr: u32,
    pub message_addr_up: u32,
    pub message_data: u16,
}

/// The MSI-X capability structure.
#[derive(Clone, Copy, Debug, PartialEq, Eq, Structural)]
pub struct MsixCapability {
    pub header: CapabilityHeader,
    pub message_control: u16,
    pub table_off_and_bar: u32,
    pub pba_off_and_bar: u32,
}

impl MsixCapability {
    /// Enable MSI-X (bit 15 of the message control) and unmask the function (bit 14).
    pub fn enable(&mut self)
        ensures
            final(self).message_control == (old(self).message_control | 0x8000) & !0x4000u16,
            final(self).header == old(self).header,
            final(self).table_off_and_bar == old(self).table_off_and_bar,
            final(self).pba_off_and_bar == old(self).pba_off_and_bar,
    {
        self.message_control = self.message_control | 0x8000;
        self.message_control = self.message_control & !0x4000u16;
    }

    /// Return the BAR index and the offset into it where the table is.
    pub fn table(&self) -> (r: (usize, usize))
        ensures
            r.0 == self.table_off_and_bar & 0b111,
            r.1 == self.table_off_and_bar & !0b111u32,
    {
        let bar = self.table_off_and_bar & 0b111;
        let off = self.table_off_and_bar & !0b111u32;
        (bar as usize, off as usize)
    }

    /// The number of entries of the table.
    pub fn table_len(&self) -> (r: usize)
        ensures
            r == (self.message_control & 0x7FF) + 1,
    {
        (self.message_control & 0x7FF) as usize + 1
    }
}

/// An entry of the MSI-X table.
#[derive(Clone, Copy, Debug, PartialEq, Eq, Structural)]
pub struct MsixTableEntry {
    pub addr: u64,
    pub data: u32,
    pub vector_control: u32,
}

impl MsixTableEntry {
    pub fn unmask(&mut self)
        ensures
            final(self).vector_control == old(self).vector_control & !1u32,
            final(self).addr == old(self).addr,
            final(self).data == old(self).data,
    {
        self.vector_control = self.vector_control & !1u32;
    }

    pub fn mask(&mut self)
        ensures
            final(self).vector_control == old(self).vector_control | 1,
            final(self).addr == old(self).addr,
            final(self).data == old(self).data,
    {
        self.vector_control = self.vector_control | 1;
    }
}

} // verus!
