use vstd::prelude::*;

use super::sdt::SdtHeader;
use super::AcpiGenericAddress;
use crate::utils::{le_u32, read_le_u16, read_le_u32};

verus! {

#[derive(Clone, Copy, Debug, PartialEq, Eq, Structural)]
pub enum BaudRate {
    Unknown,
    B9600,
    B19200,
    B57600,
    B115200,
}

impl BaudRate {
    /// The baud rate encoded as `v`, if it is a known encoding.
    pub fn from_u8(v: u8) -> (r: Option<Self>)
        ensures
            r == if v == 0 {
                Some(BaudRate::Unknown)
            } else if v == 3 {
                Some(BaudRate::B9600)
            } else if v == 4 {
                Some(BaudRate::B19200)
            } else if v == 5 {
                Some(BaudRate::B57600)
            } else if v == 6 {
                Some(BaudRate::B115200)
            } else {
                None
            },
    {
        match v {
            0 => Some(BaudRate::Unknown),
            3 => Some(BaudRate::B9600),
            4 => Some(BaudRate::B19200),
            5 => Some(BaudRate::B57600),
            6 => Some(BaudRate::B115200),
            _ => None,
        }
    }
}

#[derive(Clone, Copy, Debug, PartialEq, Eq, Structural)]
pub enum TerminalType {
    VT100,
    ExtendedVT100,
    VtUtf8,
    ANSI,
}

impl TerminalType {
    /// The terminal type encoded as `v`, if it is a known encoding.
    pub fn from_u8(v: u8) -> (r: Option<Self>)
        ensures
            r == if v == 0 {
                Some(TerminalType::VT100)
            } else if v == 1 {
                Some(TerminalType::ExtendedVT100)
            } else if v == 2 {
                Some(TerminalType::VtUtf8)
            } else if v == 3 {
                Some(TerminalType::ANSI)
            } else {
                None
            },
    {
        match v {
            0 => Some(TerminalType::VT100),
            1 => Some(TerminalType::ExtendedVT100),
            2 => Some(TerminalType::VtUtf8),
            3 => Some(TerminalType::ANSI),
            _ => None,
        }
    }
}

#[derive(Clone, Copy, Debug, PartialEq, Eq, Structural)]
pub enum SerialType {
    Unknown,
    // revision 1
    Full16550,
    Full16450,
    Subset16550,
    Max311xE,
    Pl011UART,
    Msm8x60,
    Nvidia16550,
    TiOmap,
    Apm88xxxx,
    Msm8974,
    Sam5250,
    IntelUsif,
    Imx6,
    Sbsa,
    Dcc,
    Bcm2835,
    Sdm845,
    IntelLpss,
}

/// The serial port type of a table of revision `revision` whose interface type is `t`.
pub open spec fn serial_type_spec(revision: u8, t: u8) -> SerialType {
    if revision == 1 {
        if t == 0 {
            SerialType::Full16550
        } else if t == 1 {
            SerialType::Full16450
        } else {
            SerialType::Unknown
        }
    } else {
        if t == 0 {
            SerialType::Full16550
        } else if t == 1 {
            SerialType::Subset16550
        } else if t == 2 {
            SerialType::Max311xE
        } else if t == 3 {
            SerialType::Pl011UART
        } else if t == 4 {
            SerialType::Msm8x60
        } else if t == 5 {
            SerialType::Nvidia16550
        } else if t == 6 {
            SerialType::TiOmap
        } else if t == 8 {
            SerialType::Apm88xxxx
        } else if t == 9 {
            SerialType::Msm8974
        } else if t == 10 {
            SerialType::Sam5250
        } else if t == 11 {
            SerialType::IntelUsif
        } else if t == 12 {
            SerialType::Imx6
        } else if t == 13 || t == 14 {
            SerialType::Sbsa
        } else if t == 15 {
            SerialType::Dcc
        } else if t == 16 {
            SerialType::Bcm2835
        } else if t == 17 {
            SerialType::Sdm845
        } else if t == 18 {
            SerialType::Full16550
        } else if t == 19 {
            SerialType::Sdm845
        } else if t == 20 {
            SerialType::IntelLpss
        } else {
            SerialType::Unknown
        }
    }
}

/// The size of the table in bytes.
pub const SPCR_SIZE: usize = 80;

/// The Serial Port Console Redirection table.
#[derive(Clone, Copy, Debug)]
pub struct Spcr {
    pub header: SdtHeader,
    pub interface_type: u8,
    pub address: AcpiGenericAddress,
    pub interrupt_type: u8,
    pub irq: u8,
    pub global_system_interrupt: u32,
    /// See `BaudRate::from_u8`.
    pub baud_rate: u8,
    pub parity: u8,
    pub stop_bits: u8,
    pub flow_control: u8,
    /// See `TerminalType::from_u8`.
    pub terminal_type: u8,
    pub language: u8,
    pub pci_device_id: u16,
    pub pci_vendor_id: u16,
    pub pci_bus_number: u8,
    pub pci_device_number: u8,
    pub pci_function_number: u8,
    pub pci_flags: u32,
    pub pci_segment: u8,
    pub uart_clock_frequency: u32,
}

impl Spcr {
    /// The table in `b`.
    pub fn read(b: &[u8]) -> (r: Self)
        requires
            b@.len() >= SPCR_SIZE,
        ensures
            r.header.revision == b@[8],
            r.interface_type == b@[36],
            r.address.address_space_id == b@[40],
            r.irq == b@[53],
            r.global_system_interrupt == le_u32(b@, 54),
            r.baud_rate == b@[58],
            r.terminal_type == b@[62],
            r.uart_clock_frequency == le_u32(b@, 76),
    {
        Spcr {
            header: SdtHeader::read(b),
            interface_type: b[36],
            address: AcpiGenericAddress::read(b, 40),
            interrupt_type: b[52],
            irq: b[53],
            global_system_interrupt: read_le_u32(b, 54),
            baud_rate: b[58],
            parity: b[59],
            stop_bits: b[60],
            flow_control: b[61],
            terminal_type: b[62],
            language: b[63],
            pci_device_id: read_le_u16(b, 64),
            pci_vendor_id: read_le_u16(b, 66),
            pci_bus_number: b[68],
            pci_device_number: b[69],
            pci_function_number: b[70],
            pci_flags: read_le_u32(b, 71),
            pci_segment: b[75],
            uart_clock_frequency: read_le_u32(b, 76),
        }
    }

    /// The type of the serial port; the encoding depends on the revision of the table.
    pub fn get_serial_type(&self) -> (r: SerialType)
        ensures
            r == serial_type_spec(self.header.revision, self.interface_type),
    {
        if self.header.revision == 1 {
            match self.interface_type {
                0 => SerialType::Full16550,
                1 => SerialType::Full16450,
                _ => SerialType::Unknown,
            }
        } else {
            match self.interface_type {
                0 => SerialType::Full16550,
                1 => SerialType::Subset16550,
                2 => SerialType::Max311xE,
                3 => SerialType::Pl011UART,
                4 => SerialType::Msm8x60,
                5 => SerialType::Nvidia16550,
                6 => SerialType::TiOmap,
                8 => SerialType::Apm88xxxx,
                9 => SerialType::Msm8974,
                10 => SerialType::Sam5250,
                11 => SerialType::IntelUsif,
                12 => SerialType::Imx6,
                13 | 14 => SerialType::Sbsa,
                15 => SerialType::Dcc,
                16 => SerialType::Bcm2835,
                17 => SerialType::Sdm845,
                18 => SerialType::Full16550,
                19 => SerialType::Sdm845,
                20 => SerialType::IntelLpss,
                _ => SerialType::Unknown,
            }
        }
    }
}

} // verus!
